//! What the compiler wrapper decides without the compiler: its protocol
//! handshake, its options, and the source text it normalizes.

use vstd::prelude::*;
use vstd::string::{StringExecFns, StringSliceAdditionalSpecFns, StrSliceExecFns};

use crate::model::{
    env_options, fix_target_identity_view, optional_text, CollectionOptions, DefinitionIdentity, FindingKind, FixPlan,
    FixTarget, IdentityView, Span, VisibilityReduction, span_view, Edge, EdgeKind,
};
use crate::protocol::{COLLECTION_OPTIONS_ENV, VERSION_ARGUMENT};
use crate::text::{push_char, str_eq, views};

verus! {

/// Whether the arguments ask the wrapper only for its protocol version.
pub fn is_protocol_version_query(args: &Vec<String>) -> (r: bool)
    ensures
        r == (args@.len() == 2 && args@[1]@ == VERSION_ARGUMENT@),
{
    args.len() == 2 && str_eq(args[1].as_str(), VERSION_ARGUMENT)
}

/// Whether the process runs as the compiler wrapper: the frontend set both the
/// graph directory and the root crate, and a compiler path follows the
/// program's own.
pub fn is_wrapper_invocation(output_dir_set: bool, root_crate_set: bool, args: &Vec<String>) -> (r: bool)
    ensures
        r == (output_dir_set && root_crate_set && args@.len() > 1),
{
    output_dir_set && root_crate_set && args.len() > 1
}

/// The arguments that lints are capped and unused imports allowed with, while
/// a fix plan is applied.
pub open spec fn fix_arguments() -> Seq<Seq<char>> {
    seq!["--cap-lints"@, "allow"@, "--allow"@, "unused_imports"@]
}

/// The compiler's arguments in a wrapper invocation: the wrapper's own
/// argument removed, and, when a fix plan is applied, lints capped and unused
/// imports allowed, since a fix can leave an import unused in one consumer mode
/// that another still needs.
pub fn compiler_arguments(args: Vec<String>, applies_fixes: bool) -> (r: Vec<String>)
    requires
        args@.len() > 1,
    ensures
        views(r@) == views(args@).remove(1) + (if applies_fixes {
            fix_arguments()
        } else {
            Seq::empty()
        }),
{
    let mut args = args;
    let ghost original = views(args@);
    args.remove(1);
    proof {
        assert(views(args@) =~= original.remove(1));
    }
    if applies_fixes {
        let ghost before = views(args@);
        args.push(String::from_str("--cap-lints"));
        args.push(String::from_str("allow"));
        args.push(String::from_str("--allow"));
        args.push(String::from_str("unused_imports"));
        proof {
            assert(views(args@) =~= before + fix_arguments());
        }
    } else {
        proof {
            assert(views(args@) =~= views(args@) + Seq::<Seq<char>>::empty());
        }
    }
    args
}

/// Why the collection options in the environment were refused.
#[derive(Clone, Debug, PartialEq, Eq)]
pub enum CollectionOptionsError {
    /// The value is not valid UTF-8.
    NotUtf8,
    /// The value names no known options.
    Unsupported { value: String },
}

/// The message of a collection options error.
pub open spec fn collection_options_message(e: CollectionOptionsError) -> Seq<char> {
    match e {
        CollectionOptionsError::NotUtf8 => COLLECTION_OPTIONS_ENV@ + " must be valid UTF-8"@,
        CollectionOptionsError::Unsupported { value } => "unsupported "@ + COLLECTION_OPTIONS_ENV@ + " value `"@
            + value@ + "`"@,
    }
}

impl CollectionOptionsError {
    /// The message of this error.
    pub fn message(&self) -> (r: String)
        ensures
            r@ == collection_options_message(*self),
    {
        match self {
            CollectionOptionsError::NotUtf8 => {
                let mut r = String::from_str(COLLECTION_OPTIONS_ENV);
                r.append(" must be valid UTF-8");
                r
            },
            CollectionOptionsError::Unsupported { value } => {
                let mut r = String::from_str("unsupported ");
                r.append(COLLECTION_OPTIONS_ENV);
                r.append(" value `");
                r.append(value.as_str());
                r.append("`");
                r
            },
        }
    }
}

/// Reads the collection options that the frontend passed in the environment.
pub fn parse_collection_options(value: Option<&str>) -> (r: Result<CollectionOptions, CollectionOptionsError>)
    ensures
        match r {
            Ok(o) => env_options(optional_text(value)) == Some(o@),
            Err(e) => {
                &&& env_options(optional_text(value)) is None
                &&& value is Some
                &&& e matches CollectionOptionsError::Unsupported { value: text } && text@ == value.unwrap()@
            },
        },
{
    match value {
        None => Ok(CollectionOptions::new(false)),
        Some(v) => match CollectionOptions::from_env_value(Some(v)) {
            Some(options) => Ok(options),
            None => Err(CollectionOptionsError::Unsupported { value: String::from_str(v) }),
        },
    }
}

/// The uniform field group of a declaration, computed only when the options
/// ask for it and its fields share one visibility.
pub fn uniform_field_group<T, U: FnOnce() -> bool, G: FnOnce() -> Option<T>>(
    options: CollectionOptions,
    fields_have_uniform_visibility: U,
    group: G,
) -> (r: Option<T>)
    requires
        options@ ==> call_requires(fields_have_uniform_visibility, ()),
        options@ ==> call_requires(group, ()),
    ensures
        !options@ ==> r is None,
        options@ ==> exists|uniform: bool|
            call_ensures(fields_have_uniform_visibility, (), uniform) && if uniform {
                call_ensures(group, (), r)
            } else {
                r is None
            },
{
    if options.preserve_uniform_field_visibility() {
        let uniform = fields_have_uniform_visibility();
        if uniform {
            group()
        } else {
            None
        }
    } else {
        None
    }
}

/// An ASCII whitespace byte: space, tab, line feed, form feed or carriage return.
pub open spec fn ascii_whitespace(b: u8) -> bool {
    b == 32 || b == 9 || b == 10 || b == 12 || b == 13
}

/// Where a scan of a visibility modifier stands: in code, in a line
/// comment, or in a block comment nested `depth` deep.
pub enum LexState {
    Code,
    Line,
    Block(nat),
}

/// The two bytes at `i` are `x` then `y`.
pub open spec fn pair_at(b: Seq<u8>, i: int, x: u8, y: u8) -> bool {
    0 <= i && i + 1 < b.len() && b[i] == x && b[i + 1] == y
}

/// The bytes from `i` on, outside comments and whitespace, or `None` when a
/// block comment is left open.
pub open spec fn compact_from(b: Seq<u8>, i: int, state: LexState) -> Option<Seq<char>>
    decreases b.len() - i,
{
    if i < 0 || i >= b.len() {
        match state {
            LexState::Block(_) => None,
            _ => Some(Seq::empty()),
        }
    } else {
        match state {
            LexState::Code => if ascii_whitespace(b[i]) {
                compact_from(b, i + 1, LexState::Code)
            } else if pair_at(b, i, 47, 47) {
                compact_from(b, i + 2, LexState::Line)
            } else if pair_at(b, i, 47, 42) {
                compact_from(b, i + 2, LexState::Block(1))
            } else {
                match compact_from(b, i + 1, LexState::Code) {
                    Some(rest) => Some(seq![b[i] as char] + rest),
                    None => None,
                }
            },
            LexState::Line => if b[i] == 10 {
                compact_from(b, i + 1, LexState::Code)
            } else {
                compact_from(b, i + 1, LexState::Line)
            },
            LexState::Block(depth) => if pair_at(b, i, 47, 42) {
                compact_from(b, i + 2, LexState::Block(depth + 1))
            } else if pair_at(b, i, 42, 47) {
                if depth <= 1 {
                    compact_from(b, i + 2, LexState::Code)
                } else {
                    compact_from(b, i + 2, LexState::Block((depth - 1) as nat))
                }
            } else {
                compact_from(b, i + 1, LexState::Block(depth))
            },
        }
    }
}

/// A visibility modifier without whitespace and comments, such as
/// `pub(crate)` for `pub /* a */ ( crate )`, or `None` when a block comment
/// is left open.
pub fn compact_visibility_modifier(visibility: &str) -> (r: Option<String>)
    ensures
        match compact_from(visibility.spec_bytes(), 0, LexState::Code) {
            Some(s) => r matches Some(x) && x@ == s,
            None => r is None,
        },
{
    let bytes = visibility.as_bytes();
    let ghost b = bytes@;
    let n = bytes.len();
    let mut compact = String::new();
    let mut index: usize = 0;
    // 0: code, 1: line comment, 2: block comment.
    let mut mode: u8 = 0;
    let mut depth: usize = 0;
    let ghost goal = compact_from(b, 0, LexState::Code);
    proof {
        assert(compact@ =~= Seq::<char>::empty());
        assert(goal == match compact_from(b, 0, LexState::Code) {
            Some(rest) => Some(compact@ + rest),
            None => None::<Seq<char>>,
        }) by {
            match compact_from(b, 0, LexState::Code) {
                Some(rest) => {
                    assert(compact@ + rest =~= rest);
                },
                None => {},
            }
        }
    }
    while index < n
        invariant
            b == bytes@,
            n == b.len(),
            b == visibility.spec_bytes(),
            goal == compact_from(b, 0, LexState::Code),
            index <= n,
            mode <= 2,
            mode == 2 ==> 1 <= depth <= index,
            goal == match compact_from(
                b,
                index as int,
                if mode == 0 {
                    LexState::Code
                } else if mode == 1 {
                    LexState::Line
                } else {
                    LexState::Block(depth as nat)
                },
            ) {
                Some(rest) => Some(compact@ + rest),
                None => None::<Seq<char>>,
            },
        decreases n - index,
    {
        let c = bytes[index];
        let two = index + 1 < n;
        if mode == 0 {
            if c == 32 || c == 9 || c == 10 || c == 12 || c == 13 {
                index = index + 1;
            } else if two && c == 47 && bytes[index + 1] == 47 {
                mode = 1;
                index = index + 2;
            } else if two && c == 47 && bytes[index + 1] == 42 {
                mode = 2;
                depth = 1;
                index = index + 2;
            } else {
                let ghost before = compact@;
                push_char(&mut compact, c as char);
                proof {
                    match compact_from(b, index + 1, LexState::Code) {
                        Some(rest) => {
                            assert(before + (seq![c as char] + rest) =~= compact@ + rest);
                        },
                        None => {},
                    }
                }
                index = index + 1;
            }
        } else if mode == 1 {
            if c == 10 {
                mode = 0;
            }
            index = index + 1;
        } else {
            if two && c == 47 && bytes[index + 1] == 42 {
                depth = depth + 1;
                index = index + 2;
            } else if two && c == 42 && bytes[index + 1] == 47 {
                if depth <= 1 {
                    mode = 0;
                    depth = 0;
                } else {
                    depth = depth - 1;
                }
                index = index + 2;
            } else {
                index = index + 1;
            }
        }
    }
    if mode == 2 {
        None
    } else {
        proof {
            assert(compact@ + Seq::<char>::empty() =~= compact@);
        }
        Some(compact)
    }
}

/// The key `(file, start)` comes before `(file2, start2)`.
pub open spec fn key_before(a: (u32, u32), b: (u32, u32)) -> bool {
    a.0 < b.0 || (a.0 == b.0 && a.1 < b.1)
}

/// `p` splits `items` into those keyed before `(file, position)` and the rest.
pub open spec fn partition_at<T>(items: Seq<(u32, u32, T)>, file: u32, position: u32, p: int) -> bool {
    &&& 0 <= p <= items.len()
    &&& forall|k: int| 0 <= k < p ==> key_before(((#[trigger] items[k]).0, items[k].1), (file, position))
    &&& forall|k: int| p <= k < items.len() ==> !key_before(((#[trigger] items[k]).0, items[k].1), (file, position))
}

/// The first source item of file `file` that starts at or after `position`,
/// in items sorted by file and start.
pub fn source_item_at_or_after<T>(items: &[(u32, u32, T)], file: u32, position: u32) -> (r: Option<&T>)
    requires
        forall|i: int, j: int|
            0 <= i < j < items@.len() ==> !key_before(
                ((#[trigger] items@[j]).0, items@[j].1),
                ((#[trigger] items@[i]).0, items@[i].1),
            ),
    ensures
        exists|p: int|
            partition_at(items@, file, position, p) && match r {
                Some(x) => p < items@.len() && items@[p].0 == file && *x == items@[p].2,
                None => p == items@.len() || items@[p].0 != file,
            },
{
    let mut p: usize = 0;
    while p < items.len() && (items[p].0 < file || (items[p].0 == file && items[p].1 < position))
        invariant
            p <= items@.len(),
            forall|k: int| 0 <= k < p ==> key_before(((#[trigger] items@[k]).0, items@[k].1), (file, position)),
        decreases items@.len() - p,
    {
        p = p + 1;
    }
    proof {
        if p < items@.len() {
            assert forall|k: int| p <= k < items@.len() implies !key_before(
                ((#[trigger] items@[k]).0, items@[k].1),
                (file, position),
            ) by {
                if k > p {
                    assert(!key_before((items@[k].0, items@[k].1), (items@[p as int].0, items@[p as int].1)));
                }
            }
        }
        assert(partition_at(items@, file, position, p as int));
    }
    if p < items.len() && items[p].0 == file {
        Some(&items[p].2)
    } else {
        None
    }
}


/// The path segment `..`.
pub open spec fn parent_segment() -> Seq<char> {
    ".."@
}

/// The parts of a normalized path after taking in one more segment: empty
/// segments and `.` vanish, `..` removes the part before it where that is an
/// ordinary name, stays at the root of a rooted path, and is kept otherwise.
pub open spec fn take_segment(parts: Seq<Seq<char>>, rooted: bool, segment: Seq<char>) -> Seq<Seq<char>> {
    if segment.len() == 0 || segment == "."@ {
        parts
    } else if segment == parent_segment() {
        if parts.len() > 0 && parts.last() != parent_segment() {
            parts.drop_last()
        } else if rooted {
            parts
        } else {
            parts.push(segment)
        }
    } else {
        parts.push(segment)
    }
}

/// The normalized parts of `p`, given those of its text before `start` and the
/// segment that runs from `start` to `i`.
pub open spec fn parts_from(p: Seq<char>, i: int, start: int, parts: Seq<Seq<char>>, rooted: bool) -> Seq<Seq<char>>
    decreases p.len() - i,
{
    if i < 0 || i >= p.len() {
        take_segment(parts, rooted, p.subrange(start, p.len() as int))
    } else if p[i] == '/' {
        parts_from(p, i + 1, i + 1, take_segment(parts, rooted, p.subrange(start, i)), rooted)
    } else {
        parts_from(p, i + 1, start, parts, rooted)
    }
}

/// Whether the path starts at the root.
pub open spec fn is_rooted(p: Seq<char>) -> bool {
    p.len() > 0 && p[0] == '/'
}

/// The parts of `p` joined by `/`.
pub open spec fn joined(parts: Seq<Seq<char>>) -> Seq<char>
    decreases parts.len(),
{
    if parts.len() == 0 {
        Seq::empty()
    } else if parts.len() == 1 {
        parts[0]
    } else {
        joined(parts.drop_last()) + "/"@ + parts.last()
    }
}

/// The lexically normalized form of a path: `.` removed and `..` folded into
/// the name before it.
pub open spec fn normalized_path(p: Seq<char>) -> Seq<char> {
    let parts = parts_from(p, 0, 0, Seq::empty(), is_rooted(p));
    if is_rooted(p) {
        "/"@ + joined(parts)
    } else {
        joined(parts)
    }
}

/// Adds one segment to the normalized parts.
fn take_segment_into(parts: &mut Vec<String>, rooted: bool, segment: &str)
    ensures
        views(final(parts)@) == take_segment(views(old(parts)@), rooted, segment@),
{
    proof {
        reveal_strlit(".");
        reveal_strlit("..");
    }
    let ghost before = views(parts@);
    if segment.unicode_len() == 0 || str_eq(segment, ".") {
        return;
    }
    if str_eq(segment, "..") {
        let n = parts.len();
        if n > 0 && !str_eq(parts[n - 1].as_str(), "..") {
            parts.pop();
            proof {
                assert(views(parts@) =~= before.drop_last());
            }
        } else if !rooted {
            parts.push(String::from_str(segment));
            proof {
                assert(views(parts@) =~= before.push(segment@));
            }
        }
    } else {
        parts.push(String::from_str(segment));
        proof {
            assert(views(parts@) =~= before.push(segment@));
        }
    }
}

/// A source path with `.` segments removed and `..` folded into the segment
/// before it, without touching the file system.
pub fn normalize_source_path(path: &str) -> (r: String)
    ensures
        r@ == normalized_path(path@),
{
    let ghost p = path@;
    let n = path.unicode_len();
    let rooted = n > 0 && path.get_char(0) == '/';
    let mut parts: Vec<String> = Vec::new();
    let mut start: usize = 0;
    let mut i: usize = 0;
    let ghost goal = parts_from(p, 0, 0, Seq::empty(), rooted);
    proof {
        assert(views(parts@) =~= Seq::<Seq<char>>::empty());
    }
    while i < n
        invariant
            p == path@,
            n == p.len(),
            rooted == is_rooted(p),
            start <= i <= n,
            goal == parts_from(p, 0, 0, Seq::empty(), rooted),
            goal == parts_from(p, i as int, start as int, views(parts@), rooted),
        decreases n - i,
    {
        if path.get_char(i) == '/' {
            let segment = path.substring_char(start, i);
            take_segment_into(&mut parts, rooted, segment);
            start = i + 1;
        }
        i = i + 1;
    }
    let last = path.substring_char(start, n);
    take_segment_into(&mut parts, rooted, last);
    assert(views(parts@) == goal);
    let mut r = if rooted {
        String::from_str("/")
    } else {
        String::new()
    };
    let ghost prefix = r@;
    let mut k: usize = 0;
    while k < parts.len()
        invariant
            0 <= k <= parts@.len(),
            r@ == prefix + joined(views(parts@).subrange(0, k as int)),
        decreases parts@.len() - k,
    {
        let ghost done = views(parts@).subrange(0, k as int);
        if k > 0 {
            r.append("/");
        }
        r.append(parts[k].as_str());
        proof {
            let next = views(parts@).subrange(0, k + 1);
            assert(next.drop_last() =~= done);
            assert(next.last() == parts@[k as int]@);
            if k == 0 {
                assert(joined(done) =~= Seq::<char>::empty());
                assert(prefix + parts@[0]@ =~= prefix + joined(next));
            } else {
                assert(prefix + joined(done) + "/"@ + parts@[k as int]@ =~= prefix + joined(next));
            }
        }
        k = k + 1;
    }
    proof {
        assert(views(parts@).subrange(0, parts@.len() as int) =~= views(parts@));
        reveal_strlit("/");
    }
    r
}

/// The last target of a fix plan with the given id.
pub open spec fn last_target_with_id(targets: Seq<FixTarget>, id: Seq<char>) -> Option<FixTarget>
    decreases targets.len(),
{
    if targets.len() == 0 {
        None
    } else if targets.last().id@ == id {
        Some(targets.last())
    } else {
        last_target_with_id(targets.drop_last(), id)
    }
}

/// The last target of a fix plan with the given identity.
pub open spec fn last_target_with_identity(targets: Seq<FixTarget>, identity: IdentityView) -> Option<FixTarget>
    decreases targets.len(),
{
    if targets.len() == 0 {
        None
    } else if fix_target_identity_view(targets.last()) == identity {
        Some(targets.last())
    } else {
        last_target_with_identity(targets.drop_last(), identity)
    }
}

/// A fix plan's targets, looked up by id or by identity; where several
/// targets share one, the last of them counts.
pub struct FixPlanIndex<'a> {
    targets: &'a [FixTarget],
}

impl<'a> View for FixPlanIndex<'a> {
    type V = Seq<FixTarget>;

    closed spec fn view(&self) -> Seq<FixTarget> {
        self.targets@
    }
}

impl<'a> FixPlanIndex<'a> {
    pub fn new(fix_plan: &'a FixPlan) -> (r: Self)
        ensures
            r@ == fix_plan.targets@,
    {
        FixPlanIndex { targets: fix_plan.targets.as_slice() }
    }

    /// The target with the given id.
    pub fn get_by_id(&self, id: &str) -> (r: Option<&'a FixTarget>)
        ensures
            match last_target_with_id(self@, id@) {
                Some(t) => r matches Some(x) && *x == t,
                None => r is None,
            },
    {
        let mut k = self.targets.len();
        assert(self.targets@.subrange(0, k as int) =~= self.targets@);
        while k > 0
            invariant
                k <= self.targets@.len(),
                last_target_with_id(self.targets@, id@) == last_target_with_id(self.targets@.subrange(0, k as int), id@),
            decreases k,
        {
            let ghost prefix = self.targets@.subrange(0, k as int);
            assert(prefix.drop_last() =~= self.targets@.subrange(0, k - 1));
            if str_eq(self.targets[k - 1].id.as_str(), id) {
                return Some(&self.targets[k - 1]);
            }
            k = k - 1;
        }
        None
    }

    /// The target with the given identity.
    pub fn get_by_identity(&self, identity: &DefinitionIdentity) -> (r: Option<&'a FixTarget>)
        ensures
            match last_target_with_identity(self@, identity@) {
                Some(t) => r matches Some(x) && *x == t,
                None => r is None,
            },
    {
        let mut k = self.targets.len();
        assert(self.targets@.subrange(0, k as int) =~= self.targets@);
        while k > 0
            invariant
                k <= self.targets@.len(),
                last_target_with_identity(self.targets@, identity@) == last_target_with_identity(
                    self.targets@.subrange(0, k as int),
                    identity@,
                ),
            decreases k,
        {
            let ghost prefix = self.targets@.subrange(0, k as int);
            assert(prefix.drop_last() =~= self.targets@.subrange(0, k - 1));
            let t = &self.targets[k - 1];
            let candidate = DefinitionIdentity::new(t.crate_name.as_str(), t.name.as_str(), t.definition_kind, t.span.as_ref());
            if candidate.same(identity) {
                return Some(t);
            }
            k = k - 1;
        }
        None
    }
}

/// The fix that a fix plan asks for a declaration: the target with its id,
/// else the target with its identity.
pub open spec fn planned_fix_spec(targets: Seq<FixTarget>, id: Seq<char>, identity: IdentityView) -> Option<
    (FindingKind, VisibilityReduction),
> {
    match last_target_with_id(targets, id) {
        Some(t) => Some((t.kind, t.replacement)),
        None => match last_target_with_identity(targets, identity) {
            Some(t) => Some((t.kind, t.replacement)),
            None => None,
        },
    }
}

/// The finding kind and replacement visibility that the fix plan asks for the
/// declaration with the given id and identity.
pub fn planned_fix(fix_plan: &FixPlanIndex, id: &str, identity: &DefinitionIdentity) -> (r: Option<
    (FindingKind, VisibilityReduction),
>)
    ensures
        r == planned_fix_spec(fix_plan@, id@, identity@),
{
    if let Some(target) = fix_plan.get_by_id(id) {
        return Some((target.kind, target.replacement));
    }
    match fix_plan.get_by_identity(identity) {
        Some(target) => Some((target.kind, target.replacement)),
        None => None,
    }
}

/// A visibility modifier's place in the source: where it starts and how many
/// bytes it spans.
pub open spec fn site_key(site: (Span, u32)) -> ((Seq<char>, usize, usize), u32) {
    (span_view(site.0), site.1)
}

/// Site `i` is the first of the sites that share its place.
pub open spec fn first_at_site(sites: Seq<(Span, u32)>, i: int) -> bool {
    &&& 0 <= i < sites.len()
    &&& forall|j: int| 0 <= j < i ==> site_key(#[trigger] sites[j]) != site_key(sites[i])
}

/// Every site that shares the place of site `i` plans the fix `fix`.
pub open spec fn site_agrees(
    sites: Seq<(Span, u32)>,
    planned: Seq<Option<(FindingKind, VisibilityReduction)>>,
    i: int,
    fix: (FindingKind, VisibilityReduction),
) -> bool {
    forall|j: int| 0 <= j < sites.len() && site_key(#[trigger] sites[j]) == site_key(sites[i]) ==> planned[j] == Some(fix)
}

/// Whether two places are the same.
fn same_site(a: &(Span, u32), b: &(Span, u32)) -> (r: bool)
    ensures
        r == (site_key(*a) == site_key(*b)),
{
    str_eq(a.0.file.as_str(), b.0.file.as_str()) && a.0.line == b.0.line && a.0.column == b.0.column && a.1 == b.1
}

/// Whether a planned fix is the given one.
fn plans(p: &Option<(FindingKind, VisibilityReduction)>, fix: (FindingKind, VisibilityReduction)) -> (r: bool)
    ensures
        r == (*p == Some(fix)),
{
    match p {
        Some((k, v)) => *k == fix.0 && *v == fix.1,
        None => false,
    }
}

/// The fixes to apply once the planned fixes of all visibility modifiers are
/// grouped by place: one per place, at its first site, where every site of
/// that place plans the same fix; a place whose sites disagree, or where one
/// plans none, is left alone.
pub fn agreed_fixes(sites: &[(Span, u32)], planned: &[Option<(FindingKind, VisibilityReduction)>]) -> (r: Vec<
    (usize, FindingKind, VisibilityReduction),
>)
    requires
        sites@.len() == planned@.len(),
    ensures
        forall|m: int|
            #![trigger r@[m]]
            0 <= m < r@.len() ==> {
                &&& first_at_site(sites@, r@[m].0 as int)
                &&& site_agrees(sites@, planned@, r@[m].0 as int, (r@[m].1, r@[m].2))
            },
        forall|m: int, n: int| 0 <= m < n < r@.len() ==> r@[m].0 < r@[n].0,
        forall|i: int|
            first_at_site(sites@, i) && (#[trigger] planned@[i]) is Some && site_agrees(
                sites@,
                planned@,
                i,
                planned@[i].unwrap(),
            ) ==> exists|m: int| 0 <= m < r@.len() && r@[m].0 == i,
{
    let n = sites.len();
    let mut r: Vec<(usize, FindingKind, VisibilityReduction)> = Vec::new();
    let mut i: usize = 0;
    while i < n
        invariant
            n == sites@.len(),
            n == planned@.len(),
            i <= n,
            forall|m: int|
                #![trigger r@[m]]
                0 <= m < r@.len() ==> {
                    &&& r@[m].0 < i
                    &&& first_at_site(sites@, r@[m].0 as int)
                    &&& site_agrees(sites@, planned@, r@[m].0 as int, (r@[m].1, r@[m].2))
                },
            forall|m: int, k: int| 0 <= m < k < r@.len() ==> r@[m].0 < r@[k].0,
            forall|j: int|
                0 <= j < i && first_at_site(sites@, j) && (#[trigger] planned@[j]) is Some && site_agrees(
                    sites@,
                    planned@,
                    j,
                    planned@[j].unwrap(),
                ) ==> exists|m: int| 0 <= m < r@.len() && r@[m].0 == j,
        decreases n - i,
    {
        let mut first = true;
        let mut j: usize = 0;
        while j < i
            invariant
                n == sites@.len(),
                i < n,
                j <= i,
                first == forall|k: int| 0 <= k < j ==> site_key(#[trigger] sites@[k]) != site_key(sites@[i as int]),
            decreases i - j,
        {
            if same_site(&sites[j], &sites[i]) {
                first = false;
            }
            j = j + 1;
        }
        if first {
            if let Some(fix) = planned[i] {
                let mut agree = true;
                let mut k: usize = 0;
                while k < n
                    invariant
                        n == sites@.len(),
                        n == planned@.len(),
                        i < n,
                        k <= n,
                        agree == forall|q: int|
                            0 <= q < k && site_key(#[trigger] sites@[q]) == site_key(sites@[i as int]) ==> planned@[q]
                                == Some(fix),
                    decreases n - k,
                {
                    if same_site(&sites[k], &sites[i]) && !plans(&planned[k], fix) {
                        agree = false;
                    }
                    k = k + 1;
                }
                if agree {
                    let ghost before = r@;
                    r.push((i, fix.0, fix.1));
                    proof {
                        assert(r@[before.len() as int] == (i, fix.0, fix.1));
                        assert forall|m: int| 0 <= m < before.len() implies r@[m] == #[trigger] before[m] by {}
                    }
                }
            }
        }
        proof {
            assert forall|j2: int|
                0 <= j2 < i + 1 && first_at_site(sites@, j2) && (#[trigger] planned@[j2]) is Some && site_agrees(
                    sites@,
                    planned@,
                    j2,
                    planned@[j2].unwrap(),
                ) implies exists|m: int| 0 <= m < r@.len() && r@[m].0 == j2 by {
                if j2 == i {
                    assert(planned@[j2] == Some(planned@[j2].unwrap()));
                    let m = (r@.len() - 1) as int;
                    assert(r@[m].0 == j2);
                }
            }
        }
        i = i + 1;
    }
    r
}

/// Whether `s` is one of the strings of `v`.
pub open spec fn names_str(v: Seq<&str>, s: Seq<char>) -> bool {
    exists|i: int| 0 <= i < v.len() && #[trigger] v[i]@ == s
}

/// Whether a slice of strings holds one equal to `s`.
fn slice_names(v: &[&str], s: &str) -> (r: bool)
    ensures
        r == names_str(v@, s@),
{
    let mut i: usize = 0;
    while i < v.len()
        invariant
            i <= v@.len(),
            forall|k: int| 0 <= k < i ==> (#[trigger] v@[k])@ != s@,
        decreases v@.len() - i,
    {
        if str_eq(v[i], s) {
            return true;
        }
        i = i + 1;
    }
    false
}

/// Some interface edge starts at the type alias `alias`.
pub open spec fn has_alias_edge(edges: Seq<Edge>, aliases: Seq<&str>, alias: Seq<char>) -> bool {
    exists|q: int| 0 <= q < edges.len() && alias_interface_edge(#[trigger] edges[q], aliases) && edges[q].from@ == alias
}

/// An interface edge that starts at one of the type aliases.
pub open spec fn alias_interface_edge(e: Edge, aliases: Seq<&str>) -> bool {
    e.kind == EdgeKind::Interface && names_str(aliases, e.from@)
}

/// The targets, in edge order, of the interface edges among the first `n`
/// edges that start at the type alias `alias`.
pub open spec fn alias_targets_upto(edges: Seq<Edge>, n: int, aliases: Seq<&str>, alias: Seq<char>) -> Seq<
    Seq<char>,
>
    decreases n,
{
    if n <= 0 {
        Seq::empty()
    } else {
        let before = alias_targets_upto(edges, n - 1, aliases, alias);
        if alias_interface_edge(edges[n - 1], aliases) && edges[n - 1].from@ == alias {
            before.push(edges[n - 1].to@)
        } else {
            before
        }
    }
}

/// The targets, in edge order, of the interface edges that start at the type
/// alias `alias`.
pub open spec fn alias_targets(edges: Seq<Edge>, aliases: Seq<&str>, alias: Seq<char>) -> Seq<Seq<char>> {
    alias_targets_upto(edges, edges.len() as int, aliases, alias)
}

/// The interface targets of type aliases, by alias.
pub struct InterfaceTargets<'a> {
    entries: Vec<(&'a str, Vec<&'a str>)>,
}

/// The characters of a sequence of string slices.
pub open spec fn str_views(v: Seq<&str>) -> Seq<Seq<char>> {
    v.map_values(|x: &str| x@)
}

impl<'a> InterfaceTargets<'a> {
    /// The aliases and their targets, one entry per alias.
    pub closed spec fn entries(&self) -> Seq<(Seq<char>, Seq<Seq<char>>)> {
        self.entries@.map_values(|e: (&'a str, Vec<&'a str>)| (e.0@, str_views(e.1@)))
    }

    /// Whether the entries describe exactly the interface targets of the
    /// type aliases among `edges`.
    pub open spec fn describes(&self, edges: Seq<Edge>, aliases: Seq<&str>) -> bool {
        &&& forall|k: int|
            0 <= k < self.entries().len() ==> (#[trigger] self.entries()[k]).1 == alias_targets(
                edges,
                aliases,
                self.entries()[k].0,
            ) && self.entries()[k].1.len() > 0
        &&& forall|k: int, l: int|
            0 <= k < l < self.entries().len() ==> (#[trigger] self.entries()[k]).0 != (#[trigger] self.entries()[l]).0
        &&& forall|j: int|
            0 <= j < edges.len() && alias_interface_edge(#[trigger] edges[j], aliases) ==> exists|k: int|
                0 <= k < self.entries().len() && (#[trigger] self.entries()[k]).0 == edges[j].from@
    }

    /// The number of aliases with targets.
    pub fn len(&self) -> (r: usize)
        ensures
            r == self.entries().len(),
    {
        self.entries.len()
    }

    /// Whether no alias has targets.
    pub fn is_empty(&self) -> (r: bool)
        ensures
            r == (self.entries().len() == 0),
    {
        self.entries.len() == 0
    }

    /// The targets of the alias `alias`.
    pub fn get(&self, alias: &str) -> (r: Option<&Vec<&'a str>>)
        ensures
            match r {
                Some(v) => exists|k: int|
                    0 <= k < self.entries().len() && (#[trigger] self.entries()[k]).0 == alias@ && self.entries()[k].1
                        == str_views(v@),
                None => forall|k: int| 0 <= k < self.entries().len() ==> (#[trigger] self.entries()[k]).0 != alias@,
            },
    {
        let mut i: usize = 0;
        while i < self.entries.len()
            invariant
                i <= self.entries@.len(),
                forall|k: int| 0 <= k < i ==> (#[trigger] self.entries()[k]).0 != alias@,
            decreases self.entries@.len() - i,
        {
            if str_eq(self.entries[i].0, alias) {
                proof {
                    assert(self.entries()[i as int].0 == alias@);
                }
                return Some(&self.entries[i].1);
            }
            i = i + 1;
        }
        None
    }
}

/// The targets, in edge order, of the interface edges that start at one of
/// the given type aliases, grouped by alias.
pub fn type_alias_interface_targets<'a>(edges: &'a [Edge], type_aliases: &[&str]) -> (r: InterfaceTargets<'a>)
    ensures
        r.describes(edges@, type_aliases@),
{
    let n = edges.len();
    let mut keys: Vec<&'a str> = Vec::new();
    if type_aliases.len() > 0 {
        let mut j: usize = 0;
        while j < n
            invariant
                n == edges@.len(),
                j <= n,
                forall|k: int, l: int| 0 <= k < l < keys@.len() ==> (#[trigger] keys@[k])@ != (#[trigger] keys@[l])@,
                forall|k: int| 0 <= k < keys@.len() ==> has_alias_edge(edges@, type_aliases@, (#[trigger] keys@[k])@),
                forall|q: int|
                    0 <= q < j && alias_interface_edge(#[trigger] edges@[q], type_aliases@) ==> names_str(
                        keys@,
                        edges@[q].from@,
                    ),
            decreases n - j,
        {
            let e = &edges[j];
            if e.kind == EdgeKind::Interface && slice_names(type_aliases, e.from.as_str()) && !slice_names(
                keys.as_slice(),
                e.from.as_str(),
            ) {
                let ghost before = keys@;
                keys.push(e.from.as_str());
                proof {
                    assert(keys@[before.len() as int]@ == edges@[j as int].from@);
                    assert(has_alias_edge(edges@, type_aliases@, edges@[j as int].from@));
                    assert forall|k2: int| 0 <= k2 < keys@.len() implies has_alias_edge(
                        edges@,
                        type_aliases@,
                        (#[trigger] keys@[k2])@,
                    ) by {
                        if k2 < before.len() {
                            assert(keys@[k2] == before[k2]);
                        }
                    }
                    assert forall|q: int|
                        0 <= q < j + 1 && alias_interface_edge(#[trigger] edges@[q], type_aliases@) implies names_str(
                        keys@,
                        edges@[q].from@,
                    ) by {
                        if q < j {
                            let w = choose|i: int| 0 <= i < before.len() && #[trigger] before[i]@ == edges@[q].from@;
                            assert(keys@[w] == before[w]);
                        } else {
                            assert(keys@[before.len() as int]@ == edges@[q].from@);
                        }
                    }
                }
            }
            j = j + 1;
        }
    }
    proof {
        if type_aliases@.len() == 0 {
            assert forall|q: int| 0 <= q < n implies !alias_interface_edge(#[trigger] edges@[q], type_aliases@) by {}
        }
    }
    let mut entries: Vec<(&'a str, Vec<&'a str>)> = Vec::new();
    let mut k: usize = 0;
    while k < keys.len()
        invariant
            n == edges@.len(),
            k <= keys@.len(),
            entries@.len() == k,
            forall|a: int, b: int| 0 <= a < b < keys@.len() ==> (#[trigger] keys@[a])@ != (#[trigger] keys@[b])@,
            forall|a: int| 0 <= a < keys@.len() ==> has_alias_edge(edges@, type_aliases@, (#[trigger] keys@[a])@),
            forall|q: int|
                0 <= q < n && alias_interface_edge(#[trigger] edges@[q], type_aliases@) ==> names_str(
                    keys@,
                    edges@[q].from@,
                ),
            forall|a: int|
                0 <= a < k ==> (#[trigger] entries@[a]).0 == keys@[a] && str_views(entries@[a].1@) == alias_targets(
                    edges@,
                    type_aliases@,
                    keys@[a]@,
                ),
        decreases keys@.len() - k,
    {
        let key = keys[k];
        let mut targets: Vec<&'a str> = Vec::new();
        let mut j: usize = 0;
        proof {
            assert(str_views(targets@) =~= Seq::<Seq<char>>::empty());
        }
        while j < n
            invariant
                n == edges@.len(),
                j <= n,
                str_views(targets@) == alias_targets_upto(edges@, j as int, type_aliases@, key@),
            decreases n - j,
        {
            let e = &edges[j];
            if e.kind == EdgeKind::Interface && slice_names(type_aliases, e.from.as_str()) && str_eq(
                e.from.as_str(),
                key,
            ) {
                let ghost before = targets@;
                targets.push(e.to.as_str());
                proof {
                    assert(str_views(targets@) =~= str_views(before).push(edges@[j as int].to@));
                }
            }
            j = j + 1;
        }
        entries.push((key, targets));
        k = k + 1;
    }
    let r = InterfaceTargets { entries };
    proof {
        assert forall|a: int| 0 <= a < r.entries().len() implies (#[trigger] r.entries()[a]).1 == alias_targets(
            edges@,
            type_aliases@,
            r.entries()[a].0,
        ) && r.entries()[a].1.len() > 0 by {
            assert(has_alias_edge(edges@, type_aliases@, keys@[a]@));
            let q = choose|q: int|
                0 <= q < edges@.len() && alias_interface_edge(#[trigger] edges@[q], type_aliases@) && edges@[q].from@
                    == keys@[a]@;
            lemma_alias_targets_nonempty(edges@, type_aliases@, keys@[a]@, q, n as int);
        }
        assert forall|q: int|
            0 <= q < edges@.len() && alias_interface_edge(#[trigger] edges@[q], type_aliases@) implies exists|a: int|
            0 <= a < r.entries().len() && (#[trigger] r.entries()[a]).0 == edges@[q].from@ by {
            let w = choose|i: int| 0 <= i < keys@.len() && #[trigger] keys@[i]@ == edges@[q].from@;
            assert(r.entries()[w].0 == edges@[q].from@);
        }
    }
    r
}

/// An alias with a qualifying edge among the first `m` edges has targets.
proof fn lemma_alias_targets_nonempty(edges: Seq<Edge>, aliases: Seq<&str>, alias: Seq<char>, q: int, m: int)
    requires
        0 <= q < m <= edges.len(),
        alias_interface_edge(edges[q], aliases),
        edges[q].from@ == alias,
    ensures
        alias_targets_upto(edges, m, aliases, alias).len() > 0,
    decreases m,
{
    if q < m - 1 {
        lemma_alias_targets_nonempty(edges, aliases, alias, q, m - 1);
    }
}

} // verus!
