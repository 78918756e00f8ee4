//! What the analysis needs to know of the Cargo workspace: its packages,
//! their targets, and the crate names of their libraries.

use vstd::prelude::*;
use vstd::string::{StringExecFns, StringSliceAdditionalSpecFns};
use vstd::utf8::{encode_utf8, encode_utf8_decode_utf8};

use crate::invocation::{crate_name_of, crate_name_text};
use crate::order::{bytes_less, lemma_bytes_order};
use crate::semantics::bytes_lt;
use crate::text::str_eq;

verus! {

/// A target of a Cargo package.
#[derive(Clone, Debug)]
pub struct CargoTarget {
    pub name: String,
    pub is_lib: bool,
    pub is_bin: bool,
}

/// A package of the Cargo workspace and its targets.
#[derive(Clone, Debug)]
pub struct CargoPackage {
    pub name: String,
    pub targets: Vec<CargoTarget>,
}

/// Texts in strictly increasing byte order, so each occurs once.
pub open spec fn ordered_names(v: Seq<Seq<char>>) -> bool {
    forall|i: int, j: int| 0 <= i < j < v.len() ==> bytes_lt(encode_utf8(#[trigger] v[i]), encode_utf8(#[trigger] v[j]))
}

/// The texts of owned strings.
pub open spec fn names(v: Seq<String>) -> Seq<Seq<char>> {
    v.map_values(|s: String| s@)
}

/// Inserts a text into an ordered list of texts, unless it is there.
fn insert_name(v: &mut Vec<String>, s: &str)
    requires
        ordered_names(names(old(v)@)),
    ensures
        ordered_names(names(final(v)@)),
        names(final(v)@).to_set() == names(old(v)@).to_set().insert(s@),
{
    let ghost before = names(v@);
    let mut q: usize = 0;
    while q < v.len() && bytes_less(v[q].as_str().as_bytes(), s.as_bytes())
        invariant
            before == names(v@),
            ordered_names(before),
            q <= v@.len(),
            forall|k: int| 0 <= k < q ==> bytes_lt(encode_utf8(#[trigger] before[k]), encode_utf8(s@)),
        decreases v@.len() - q,
    {
        q = q + 1;
    }
    if q < v.len() && str_eq(v[q].as_str(), s) {
        proof {
            assert(before.to_set().insert(s@) =~= before.to_set()) by {
                assert(before[q as int] == s@);
                assert(before.contains(s@));
            }
        }
        return;
    }
    proof {
        if q < before.len() {
            let a = encode_utf8(before[q as int]);
            let b = encode_utf8(s@);
            lemma_bytes_order(a, b, a);
            encode_utf8_decode_utf8(before[q as int]);
            encode_utf8_decode_utf8(s@);
            assert(a != b);
            assert(bytes_lt(b, a));
        }
    }
    v.insert(q, String::from_str(s));
    proof {
        let after = names(v@);
        assert(after.len() == before.len() + 1);
        assert forall|k: int| 0 <= k < after.len() implies #[trigger] after[k] == if k < q {
            before[k]
        } else if k == q {
            s@
        } else {
            before[k - 1]
        } by {}
        assert forall|i: int, j: int| 0 <= i < j < after.len() implies bytes_lt(
            encode_utf8(#[trigger] after[i]),
            encode_utf8(#[trigger] after[j]),
        ) by {
            let b = encode_utf8(s@);
            if i < q && j == q {
            } else if i == q && j > q {
                if j - 1 > q {
                    lemma_bytes_order(b, encode_utf8(before[q as int]), encode_utf8(before[j - 1]));
                }
            } else if i < q && j > q {
                assert(bytes_lt(encode_utf8(before[i]), encode_utf8(before[j - 1])));
            } else if i > q {
                assert(bytes_lt(encode_utf8(before[i - 1]), encode_utf8(before[j - 1])));
            } else {
                assert(bytes_lt(encode_utf8(before[i]), encode_utf8(before[j])));
            }
        }
        assert(after.to_set() =~= before.to_set().insert(s@)) by {
            assert forall|x: Seq<char>| #[trigger] after.to_set().contains(x) <==> before.to_set().insert(s@).contains(x) by {
                if after.contains(x) {
                    let k = choose|k: int| 0 <= k < after.len() && after[k] == x;
                    if k < q {
                        assert(before[k] == x);
                    } else if k > q {
                        assert(before[k - 1] == x);
                    }
                }
                if before.contains(x) {
                    let k = choose|k: int| 0 <= k < before.len() && before[k] == x;
                    if k < q {
                        assert(after[k] == x);
                    } else {
                        assert(after[k + 1] == x);
                    }
                }
                if x == s@ {
                    assert(after[q as int] == x);
                }
            }
        }
    }
}

/// The package `p` has a library target whose crate is named `c`.
pub open spec fn provides_crate(p: CargoPackage, c: Seq<char>) -> bool {
    exists|t: int| 0 <= t < p.targets@.len() && (#[trigger] p.targets@[t]).is_lib && crate_name_text(p.targets@[t].name@) == c
}

/// Some package provides the crate `c`.
pub open spec fn provided(packages: Seq<CargoPackage>, c: Seq<char>) -> bool {
    exists|i: int| 0 <= i < packages.len() && provides_crate(#[trigger] packages[i], c)
}

/// The package named `name` has a binary target named `binary`.
pub open spec fn has_binary(p: CargoPackage, binary: Seq<char>) -> bool {
    exists|t: int| 0 <= t < p.targets@.len() && (#[trigger] p.targets@[t]).is_bin && p.targets@[t].name@ == binary
}

/// The first package named `name`, if any.
pub open spec fn first_named(packages: Seq<CargoPackage>, name: Seq<char>, i: int) -> bool {
    &&& 0 <= i < packages.len()
    &&& packages[i].name@ == name
    &&& forall|k: int| 0 <= k < i ==> (#[trigger] packages[k]).name@ != name
}

/// The message of a production binary outside the workspace.
pub open spec fn missing_package_message(package: Seq<char>) -> Seq<char> {
    "package `"@ + package + "` is not in the selected workspace"@
}

/// The message of a production package without the named binary.
pub open spec fn missing_binary_message(package: Seq<char>, binary: Seq<char>) -> Seq<char> {
    "package `"@ + package + "` has no binary target `"@ + binary + "`"@
}

/// Checks that the first package named `package` has the binary target
/// `binary`.
pub fn validate_product(packages: &[CargoPackage], package: &str, binary: &str) -> (r: Result<(), String>)
    ensures
        match r {
            Ok(()) => exists|i: int| first_named(packages@, package@, i) && has_binary(packages@[i], binary@),
            Err(m) => {
                ||| (forall|i: int| 0 <= i < packages@.len() ==> (#[trigger] packages@[i]).name@ != package@) && m@
                    == missing_package_message(package@)
                ||| exists|i: int|
                    first_named(packages@, package@, i) && !has_binary(packages@[i], binary@) && m@
                        == missing_binary_message(package@, binary@)
            },
        },
{
    let mut i: usize = 0;
    while i < packages.len()
        invariant
            i <= packages@.len(),
            forall|k: int| 0 <= k < i ==> (#[trigger] packages@[k]).name@ != package@,
        decreases packages@.len() - i,
    {
        if str_eq(packages[i].name.as_str(), package) {
            let p = &packages[i];
            let mut t: usize = 0;
            while t < p.targets.len()
                invariant
                    i < packages@.len(),
                    *p == packages@[i as int],
                    p.name@ == package@,
                    forall|k: int| 0 <= k < i ==> (#[trigger] packages@[k]).name@ != package@,
                    t <= p.targets@.len(),
                    forall|k: int| 0 <= k < t ==> !((#[trigger] p.targets@[k]).is_bin && p.targets@[k].name@ == binary@),
                decreases p.targets@.len() - t,
            {
                if p.targets[t].is_bin && str_eq(p.targets[t].name.as_str(), binary) {
                    proof {
                        assert(first_named(packages@, package@, i as int));
                        assert(has_binary(packages@[i as int], binary@));
                    }
                    return Ok(());
                }
                t = t + 1;
            }
            let mut m = String::from_str("package `");
            m.append(p.name.as_str());
            m.append("` has no binary target `");
            m.append(binary);
            m.append("`");
            proof {
                assert(first_named(packages@, package@, i as int));
            }
            return Err(m);
        }
        i = i + 1;
    }
    let mut m = String::from_str("package `");
    m.append(package);
    m.append("` is not in the selected workspace");
    Err(m)
}

/// The library targets of the first `n` targets of a package: the package's
/// name and the library's crate name.
pub open spec fn package_libs(p: CargoPackage, n: int) -> Seq<(Seq<char>, Seq<char>)>
    decreases n,
{
    if n <= 0 {
        Seq::empty()
    } else if p.targets@[n - 1].is_lib {
        package_libs(p, n - 1).push((p.name@, crate_name_text(p.targets@[n - 1].name@)))
    } else {
        package_libs(p, n - 1)
    }
}

/// The library targets of the packages, package by package.
pub open spec fn all_libs(packages: Seq<CargoPackage>) -> Seq<(Seq<char>, Seq<char>)>
    decreases packages.len(),
{
    if packages.len() == 0 {
        Seq::empty()
    } else {
        all_libs(packages.drop_last()) + package_libs(packages.last(), packages.last().targets@.len() as int)
    }
}

/// The library targets of the packages, computed.
fn library_targets(packages: &[CargoPackage]) -> (r: Vec<(String, String)>)
    ensures
        r@.map_values(|e: (String, String)| (e.0@, e.1@)) == all_libs(packages@),
{
    let mut r: Vec<(String, String)> = Vec::new();
    let mut i: usize = 0;
    while i < packages.len()
        invariant
            i <= packages@.len(),
            r@.map_values(|e: (String, String)| (e.0@, e.1@)) == all_libs(packages@.take(i as int)),
        decreases packages@.len() - i,
    {
        let p = &packages[i];
        let ghost start = r@.map_values(|e: (String, String)| (e.0@, e.1@));
        let mut t: usize = 0;
        while t < p.targets.len()
            invariant
                t <= p.targets@.len(),
                r@.map_values(|e: (String, String)| (e.0@, e.1@)) == start + package_libs(*p, t as int),
            decreases p.targets@.len() - t,
        {
            if p.targets[t].is_lib {
                let ghost before = r@.map_values(|e: (String, String)| (e.0@, e.1@));
                r.push((p.name.clone(), crate_name_of(p.targets[t].name.as_str())));
                proof {
                    assert(r@.map_values(|e: (String, String)| (e.0@, e.1@)) =~= before.push(
                        (p.name@, crate_name_text(p.targets@[t as int].name@)),
                    ));
                }
            }
            t = t + 1;
        }
        proof {
            assert(packages@.take(i + 1).drop_last() =~= packages@.take(i as int));
        }
        i = i + 1;
    }
    proof {
        assert(packages@.take(i as int) =~= packages@);
    }
    r
}

/// Claims libraries for the crates that still need a package: each library
/// whose crate is unclaimed claims it for its package.
pub open spec fn claim(remaining: Set<Seq<char>>, libs: Seq<(Seq<char>, Seq<char>)>, n: int) -> (
    Set<Seq<char>>,
    Seq<Seq<char>>,
)
    decreases n,
{
    if n <= 0 {
        (remaining, Seq::empty())
    } else {
        let (rest, packages) = claim(remaining, libs, n - 1);
        if rest.contains(libs[n - 1].1) {
            (rest.remove(libs[n - 1].1), packages.push(libs[n - 1].0))
        } else {
            (rest, packages)
        }
    }
}

/// The texts joined by `separator`.
pub open spec fn joined_by(v: Seq<Seq<char>>, separator: Seq<char>) -> Seq<char>
    decreases v.len(),
{
    if v.len() == 0 {
        Seq::empty()
    } else if v.len() == 1 {
        v[0]
    } else {
        joined_by(v.drop_last(), separator) + separator + v.last()
    }
}

/// Appends `v[k]`, after the separator when `k > 0`.
proof fn lemma_joined_push(v: Seq<Seq<char>>, separator: Seq<char>, k: int)
    requires
        0 <= k < v.len(),
    ensures
        joined_by(v.take(k + 1), separator) == if k == 0 {
            v[0]
        } else {
            joined_by(v.take(k), separator) + separator + v[k]
        },
{
    assert(v.take(k + 1).drop_last() =~= v.take(k));
}

/// The texts of strings, joined by `separator`.
pub(crate) fn join_strings(v: &Vec<String>, separator: &str) -> (r: String)
    ensures
        r@ == joined_by(names(v@), separator@),
{
    let mut r = String::new();
    let mut k: usize = 0;
    while k < v.len()
        invariant
            k <= v@.len(),
            r@ == joined_by(names(v@).take(k as int), separator@),
        decreases v@.len() - k,
    {
        if k > 0 {
            r.append(separator);
        }
        r.append(v[k].as_str());
        proof {
            lemma_joined_push(names(v@), separator@, k as int);
            if k == 0 {
                assert(names(v@).take(0) =~= Seq::<Seq<char>>::empty());
            }
        }
        k = k + 1;
    }
    proof {
        assert(names(v@).take(k as int) =~= names(v@));
    }
    r
}

/// Removing an ordered text list's entry equal to `c` removes `c` from its set.
proof fn lemma_remove_name(v: Seq<Seq<char>>, k: int)
    requires
        ordered_names(v),
        0 <= k < v.len(),
    ensures
        ordered_names(v.remove(k)),
        v.remove(k).to_set() == v.to_set().remove(v[k]),
{
    let w = v.remove(k);
    assert forall|i: int| 0 <= i < w.len() implies #[trigger] w[i] == if i < k {
        v[i]
    } else {
        v[i + 1]
    } by {}
    assert forall|i: int, j: int| 0 <= i < j < w.len() implies bytes_lt(encode_utf8(#[trigger] w[i]), encode_utf8(#[trigger] w[j])) by {
        if i < k && j >= k {
            assert(bytes_lt(encode_utf8(v[i]), encode_utf8(v[j + 1])));
        } else if i >= k {
            assert(bytes_lt(encode_utf8(v[i + 1]), encode_utf8(v[j + 1])));
        } else {
            assert(bytes_lt(encode_utf8(v[i]), encode_utf8(v[j])));
        }
    }
    assert(w.to_set() =~= v.to_set().remove(v[k])) by {
        assert forall|x: Seq<char>| #[trigger] w.to_set().contains(x) <==> v.to_set().remove(v[k]).contains(x) by {
            if w.contains(x) {
                let i = choose|i: int| 0 <= i < w.len() && w[i] == x;
                let src = if i < k { i } else { i + 1 };
                assert(v[src] == x);
                if x == v[k] {
                    lemma_bytes_order(encode_utf8(v[src]), encode_utf8(v[k]), encode_utf8(v[k]));
                    if src < k {
                        assert(bytes_lt(encode_utf8(v[src]), encode_utf8(v[k])));
                    } else {
                        assert(bytes_lt(encode_utf8(v[k]), encode_utf8(v[src])));
                    }
                }
            }
            if v.contains(x) && x != v[k] {
                let i = choose|i: int| 0 <= i < v.len() && v[i] == x;
                if i < k {
                    assert(w[i] == x);
                } else {
                    assert(i != k);
                    assert(w[i - 1] == x);
                }
            }
        }
    }
}

/// The message when some crates of a fix plan have no library package.
pub open spec fn unclaimed_message(crates: Seq<Seq<char>>) -> Seq<char> {
    "could not identify Cargo library package(s) for fixes in crate(s): "@ + joined_by(crates, ", "@)
}

/// The crates that the targets of a fix plan belong to.
pub open spec fn plan_crates(targets: Seq<crate::model::FixTarget>) -> Set<Seq<char>> {
    Set::new(|c: Seq<char>| exists|i: int| 0 <= i < targets.len() && #[trigger] targets[i].crate_name@ == c)
}

/// The packages whose libraries a fix plan changes: for each library target,
/// in package order, whose crate the plan names and no earlier library has
/// claimed, its package; a crate that no library claims is refused, with the
/// unclaimed crates in byte order.
pub fn fix_packages(packages: &[CargoPackage], plan: &crate::model::FixPlan) -> (r: Result<Vec<String>, String>)
    ensures
        ({
            let (rest, claimed) = claim(
                plan_crates(plan.targets@),
                all_libs(packages@),
                all_libs(packages@).len() as int,
            );
            match r {
                Ok(v) => rest.is_empty() && names(v@) == claimed,
                Err(m) => !rest.is_empty() && exists|left: Seq<Seq<char>>|
                    ordered_names(left) && left.to_set() == rest && m@ == unclaimed_message(left),
            }
        }),
{
    let mut remaining: Vec<String> = Vec::new();
    let mut i: usize = 0;
    proof {
        assert(names(remaining@).to_set() =~= Set::<Seq<char>>::empty());
    }
    while i < plan.targets.len()
        invariant
            i <= plan.targets@.len(),
            ordered_names(names(remaining@)),
            names(remaining@).to_set() == Set::new(
                |c: Seq<char>| exists|k: int| 0 <= k < i && #[trigger] plan.targets@[k].crate_name@ == c,
            ),
        decreases plan.targets@.len() - i,
    {
        let ghost before = names(remaining@).to_set();
        insert_name(&mut remaining, plan.targets[i].crate_name.as_str());
        proof {
            let next = Set::new(|c: Seq<char>| exists|k: int| 0 <= k < i + 1 && #[trigger] plan.targets@[k].crate_name@ == c);
            assert(names(remaining@).to_set() =~= next) by {
                assert forall|c: Seq<char>| #[trigger] next.contains(c) <==> before.insert(plan.targets@[i as int].crate_name@).contains(c) by {
                    if next.contains(c) {
                        let k = choose|k: int| 0 <= k < i + 1 && #[trigger] plan.targets@[k].crate_name@ == c;
                        if k < i {
                            assert(before.contains(c));
                        }
                    }
                }
            }
        }
        i = i + 1;
    }
    proof {
        assert(names(remaining@).to_set() =~= plan_crates(plan.targets@));
    }
    let libs = library_targets(packages);
    let ghost lv = libs@.map_values(|e: (String, String)| (e.0@, e.1@));
    let mut claimed: Vec<String> = Vec::new();
    let mut n: usize = 0;
    while n < libs.len()
        invariant
            lv == libs@.map_values(|e: (String, String)| (e.0@, e.1@)),
            lv == all_libs(packages@),
            n <= libs@.len(),
            ordered_names(names(remaining@)),
            names(remaining@).to_set() == claim(plan_crates(plan.targets@), lv, n as int).0,
            names(claimed@) == claim(plan_crates(plan.targets@), lv, n as int).1,
        decreases libs@.len() - n,
    {
        let (package, krate) = &libs[n];
        let mut k: usize = 0;
        while k < remaining.len() && !str_eq(remaining[k].as_str(), krate.as_str())
            invariant
                k <= remaining@.len(),
                forall|x: int| 0 <= x < k ==> remaining@[x]@ != krate@,
            decreases remaining@.len() - k,
        {
            k = k + 1;
        }
        proof {
            assert(lv[n as int] == (package@, krate@));
        }
        if k < remaining.len() {
            let ghost rv = names(remaining@);
            proof {
                assert(rv[k as int] == krate@);
                lemma_remove_name(rv, k as int);
                assert(rv.to_set().contains(krate@));
            }
            remaining.remove(k);
            let ghost before = names(claimed@);
            claimed.push(package.clone());
            proof {
                assert(names(remaining@) =~= rv.remove(k as int));
                assert(names(claimed@) =~= before.push(package@));
            }
        } else {
            proof {
                assert(!names(remaining@).to_set().contains(krate@)) by {
                    if names(remaining@).contains(krate@) {
                        let x = choose|x: int| 0 <= x < names(remaining@).len() && names(remaining@)[x] == krate@;
                        assert(remaining@[x]@ == krate@);
                    }
                }
            }
        }
        n = n + 1;
    }
    if remaining.len() == 0 {
        proof {
            assert(names(remaining@).to_set() =~= Set::<Seq<char>>::empty());
        }
        Ok(claimed)
    } else {
        let mut m = String::from_str("could not identify Cargo library package(s) for fixes in crate(s): ");
        let list = join_strings(&remaining, ", ");
        m.append(list.as_str());
        proof {
            assert(names(remaining@).to_set().contains(names(remaining@)[0]));
        }
        Err(m)
    }
}

/// The crates of the libraries.
pub open spec fn lib_crates(libs: Seq<(Seq<char>, Seq<char>)>) -> Set<Seq<char>> {
    Set::new(|c: Seq<char>| exists|i: int| 0 <= i < libs.len() && #[trigger] libs[i].1 == c)
}

/// The packages whose libraries have the crate `c`.
pub open spec fn lib_packages(libs: Seq<(Seq<char>, Seq<char>)>, c: Seq<char>) -> Set<Seq<char>> {
    Set::new(|p: Seq<char>| exists|i: int| 0 <= i < libs.len() && #[trigger] libs[i].1 == c && libs[i].0 == p)
}

/// The crates, in byte order, with the packages of each, in byte order.
pub open spec fn crate_table(entries: Seq<(Seq<char>, Seq<Seq<char>>)>, libs: Seq<(Seq<char>, Seq<char>)>) -> bool {
    &&& ordered_names(entries.map_values(|e: (Seq<char>, Seq<Seq<char>>)| e.0))
    &&& entries.map_values(|e: (Seq<char>, Seq<Seq<char>>)| e.0).to_set() == lib_crates(libs)
    &&& forall|k: int|
        0 <= k < entries.len() ==> ordered_names((#[trigger] entries[k]).1) && entries[k].1.to_set() == lib_packages(
            libs,
            entries[k].0,
        )
}

/// The description of a crate name that several packages use: the crate,
/// then its packages.
pub open spec fn conflict_text(c: Seq<char>, packages: Seq<Seq<char>>) -> Seq<char> {
    "`"@ + c + "` ("@ + joined_by(packages.map_values(|p: Seq<char>| "`"@ + p + "`"@), ", "@) + ")"@
}

/// The descriptions of the crates of the first `n` entries that several
/// packages use.
pub open spec fn conflicts_upto(entries: Seq<(Seq<char>, Seq<Seq<char>>)>, n: int) -> Seq<Seq<char>>
    decreases n,
{
    if n <= 0 {
        Seq::empty()
    } else if entries[n - 1].1.len() > 1 {
        conflicts_upto(entries, n - 1).push(conflict_text(entries[n - 1].0, entries[n - 1].1))
    } else {
        conflicts_upto(entries, n - 1)
    }
}

/// The message when workspace libraries share crate names.
pub open spec fn duplicate_crates_message(entries: Seq<(Seq<char>, Seq<Seq<char>>)>) -> Seq<char> {
    "workspace library crate names must be unique; conflicting names: "@ + joined_by(
        conflicts_upto(entries, entries.len() as int),
        "; "@,
    )
        + ". Hawk identifies graph definitions and fix targets by crate name; give each `[lib]` target a unique `name`"@
}

/// Where `s` belongs in an ordered text list, and whether it is there.
fn find_name(v: &Vec<String>, s: &str) -> (r: (usize, bool))
    requires
        ordered_names(names(v@)),
    ensures
        r.0 <= v@.len(),
        forall|k: int| 0 <= k < r.0 ==> bytes_lt(encode_utf8(#[trigger] v@[k]@), encode_utf8(s@)),
        r.1 == (r.0 < v@.len() && v@[r.0 as int]@ == s@),
        !r.1 ==> forall|k: int| r.0 <= k < v@.len() ==> bytes_lt(encode_utf8(s@), encode_utf8(#[trigger] v@[k]@)),
        r.1 <==> names(v@).contains(s@),
{
    let ghost nv = names(v@);
    let mut q: usize = 0;
    while q < v.len() && bytes_less(v[q].as_str().as_bytes(), s.as_bytes())
        invariant
            nv == names(v@),
            ordered_names(nv),
            q <= v@.len(),
            forall|k: int| 0 <= k < q ==> bytes_lt(encode_utf8(#[trigger] v@[k]@), encode_utf8(s@)),
        decreases v@.len() - q,
    {
        q = q + 1;
    }
    let found = q < v.len() && str_eq(v[q].as_str(), s);
    proof {
        let b = encode_utf8(s@);
        if q < v@.len() {
            let a = encode_utf8(v@[q as int]@);
            lemma_bytes_order(a, b, a);
            encode_utf8_decode_utf8(v@[q as int]@);
            encode_utf8_decode_utf8(s@);
            if !found {
                assert(a != b);
                assert(bytes_lt(b, a));
                assert forall|k: int| q <= k < v@.len() implies bytes_lt(b, encode_utf8(#[trigger] v@[k]@)) by {
                    if k > q {
                        assert(nv[q as int] == v@[q as int]@ && nv[k] == v@[k]@);
                        lemma_bytes_order(b, a, encode_utf8(v@[k]@));
                    }
                }
            }
        }
        if nv.contains(s@) {
            let k = choose|k: int| 0 <= k < nv.len() && nv[k] == s@;
            assert(nv[k] == v@[k]@);
            lemma_bytes_order(b, b, b);
            if k < q {
                assert(bytes_lt(encode_utf8(v@[k]@), b));
            } else if k > q && !found {
                assert(bytes_lt(b, encode_utf8(v@[k]@)));
            }
        }
        if found {
            assert(nv[q as int] == s@);
        }
    }
    (q, found)
}

/// The crate names of the workspace's libraries, in byte order, when each
/// names the library of one package only; otherwise the crates that several
/// packages use are refused, in byte order, each with its packages.
pub fn workspace_library_crates(packages: &[CargoPackage]) -> (r: Result<Vec<String>, String>)
    ensures
        ({
            let libs = all_libs(packages@);
            match r {
                Ok(v) => {
                    &&& ordered_names(names(v@))
                    &&& names(v@).to_set() == lib_crates(libs)
                    &&& forall|i: int, j: int|
                        0 <= i < libs.len() && 0 <= j < libs.len() && (#[trigger] libs[i]).1 == (#[trigger] libs[j]).1
                            ==> libs[i].0 == libs[j].0
                },
                Err(m) => exists|entries: Seq<(Seq<char>, Seq<Seq<char>>)>|
                    #[trigger] crate_table(entries, libs) && m@ == duplicate_crates_message(entries) && exists|i: int, j: int|
                        0 <= i < libs.len() && 0 <= j < libs.len() && (#[trigger] libs[i]).1 == (#[trigger] libs[j]).1
                            && libs[i].0 != libs[j].0,
            }
        }),
{
    let libs = library_targets(packages);
    let ghost lv = libs@.map_values(|e: (String, String)| (e.0@, e.1@));
    let mut crates: Vec<String> = Vec::new();
    let mut members: Vec<Vec<String>> = Vec::new();
    let mut n: usize = 0;
    proof {
        assert(names(crates@).to_set() =~= lib_crates(lv.take(0)));
    }
    while n < libs.len()
        invariant
            lv == libs@.map_values(|e: (String, String)| (e.0@, e.1@)),
            lv == all_libs(packages@),
            n <= lv.len(),
            crates@.len() == members@.len(),
            ordered_names(names(crates@)),
            names(crates@).to_set() == lib_crates(lv.take(n as int)),
            forall|k: int|
                0 <= k < members@.len() ==> ordered_names(names(#[trigger] members@[k]@)) && names(members@[k]@).to_set()
                    == lib_packages(lv.take(n as int), crates@[k]@),
        decreases lv.len() - n,
    {
        let (package, krate) = &libs[n];
        let ghost prev = lv.take(n as int);
        let ghost next = lv.take(n + 1);
        proof {
            assert(lv[n as int] == (package@, krate@));
            assert forall|i: int| 0 <= i < n implies next[i] == prev[i] by {}
            assert(next[n as int] == (package@, krate@));
            assert(lib_crates(next) =~= lib_crates(prev).insert(krate@)) by {
                assert forall|c: Seq<char>| #[trigger] lib_crates(next).contains(c) <==> lib_crates(prev).insert(krate@).contains(c) by {
                    if lib_crates(next).contains(c) {
                        let i = choose|i: int| 0 <= i < next.len() && #[trigger] next[i].1 == c;
                        if i < n {
                            assert(prev[i].1 == c);
                        }
                    }
                    if lib_crates(prev).contains(c) {
                        let i = choose|i: int| 0 <= i < prev.len() && #[trigger] prev[i].1 == c;
                        assert(next[i].1 == c);
                    }
                    if c == krate@ {
                        assert(next[n as int].1 == c);
                    }
                }
            }
            assert forall|c: Seq<char>| c != krate@ implies #[trigger] lib_packages(next, c) == lib_packages(prev, c) by {
                assert(lib_packages(next, c) =~= lib_packages(prev, c)) by {
                    assert forall|p: Seq<char>| #[trigger] lib_packages(next, c).contains(p) <==> lib_packages(prev, c).contains(p) by {
                        if lib_packages(next, c).contains(p) {
                            let i = choose|i: int| 0 <= i < next.len() && #[trigger] next[i].1 == c && next[i].0 == p;
                            assert(i < n);
                            assert(prev[i] == next[i]);
                        }
                        if lib_packages(prev, c).contains(p) {
                            let i = choose|i: int| 0 <= i < prev.len() && #[trigger] prev[i].1 == c && prev[i].0 == p;
                            assert(next[i] == prev[i]);
                        }
                    }
                }
            }
            assert(lib_packages(next, krate@) =~= lib_packages(prev, krate@).insert(package@)) by {
                assert forall|p: Seq<char>| #[trigger] lib_packages(next, krate@).contains(p) <==> lib_packages(prev, krate@).insert(package@).contains(p) by {
                    if lib_packages(next, krate@).contains(p) {
                        let i = choose|i: int| 0 <= i < next.len() && #[trigger] next[i].1 == krate@ && next[i].0 == p;
                        if i < n {
                            assert(prev[i] == next[i]);
                        }
                    }
                    if lib_packages(prev, krate@).contains(p) {
                        let i = choose|i: int| 0 <= i < prev.len() && #[trigger] prev[i].1 == krate@ && prev[i].0 == p;
                        assert(next[i] == prev[i]);
                    }
                    if p == package@ {
                        assert(next[n as int].1 == krate@ && next[n as int].0 == p);
                    }
                }
            }
        }
        let (q, found) = find_name(&crates, krate.as_str());
        if found {
            let mut group = members.remove(q);
            insert_name(&mut group, package.as_str());
            members.insert(q, group);
            proof {
                assert forall|k: int|
                    0 <= k < members@.len() implies ordered_names(names(#[trigger] members@[k]@)) && names(members@[k]@).to_set()
                        == lib_packages(next, crates@[k]@) by {
                    if k != q {
                        assert(crates@[k]@ != krate@) by {
                            if crates@[k]@ == krate@ {
                                let a = names(crates@);
                                if k < q {
                                    assert(bytes_lt(encode_utf8(a[k]), encode_utf8(a[q as int])));
                                } else {
                                    assert(bytes_lt(encode_utf8(a[q as int]), encode_utf8(a[k])));
                                }
                                lemma_bytes_order(encode_utf8(krate@), encode_utf8(krate@), encode_utf8(krate@));
                            }
                        }
                    }
                }
                assert(names(crates@).to_set() =~= lib_crates(next)) by {
                    assert(names(crates@).contains(krate@)) by {
                        assert(names(crates@)[q as int] == krate@);
                    }
                }
            }
        } else {
            let ghost old_crates = names(crates@);
            let ghost old_members = members@;
            crates.insert(q, krate.clone());
            let mut group: Vec<String> = Vec::new();
            group.push(package.clone());
            members.insert(q, group);
            proof {
                let nc = names(crates@);
                assert forall|k: int| 0 <= k < nc.len() implies #[trigger] nc[k] == if k < q {
                    old_crates[k]
                } else if k == q {
                    krate@
                } else {
                    old_crates[k - 1]
                } by {}
                assert forall|k: int| 0 <= k < members@.len() implies #[trigger] members@[k] == if k < q {
                    old_members[k]
                } else if k == q {
                    group
                } else {
                    old_members[k - 1]
                } by {}
                assert forall|i: int, j: int| 0 <= i < j < nc.len() implies bytes_lt(encode_utf8(#[trigger] nc[i]), encode_utf8(#[trigger] nc[j])) by {
                    let b = encode_utf8(krate@);
                    if i < q && j == q {
                        assert(old_crates[i] == crates@[i]@);
                    } else if i == q && j > q {
                        assert(old_crates[j - 1] == nc[j]);
                    } else if i < q && j > q {
                        assert(bytes_lt(encode_utf8(old_crates[i]), encode_utf8(old_crates[j - 1])));
                    } else if i > q {
                        assert(bytes_lt(encode_utf8(old_crates[i - 1]), encode_utf8(old_crates[j - 1])));
                    } else {
                        assert(bytes_lt(encode_utf8(old_crates[i]), encode_utf8(old_crates[j])));
                    }
                }
                assert(nc.to_set() =~= old_crates.to_set().insert(krate@)) by {
                    assert forall|c: Seq<char>| #[trigger] nc.to_set().contains(c) <==> old_crates.to_set().insert(krate@).contains(c) by {
                        if nc.contains(c) {
                            let k = choose|k: int| 0 <= k < nc.len() && nc[k] == c;
                            if k < q {
                                assert(old_crates[k] == c);
                            } else if k > q {
                                assert(old_crates[k - 1] == c);
                            }
                        }
                        if old_crates.contains(c) {
                            let k = choose|k: int| 0 <= k < old_crates.len() && old_crates[k] == c;
                            if k < q {
                                assert(nc[k] == c);
                            } else {
                                assert(nc[k + 1] == c);
                            }
                        }
                        if c == krate@ {
                            assert(nc[q as int] == c);
                        }
                    }
                }
                assert(lib_packages(prev, krate@) =~= Set::<Seq<char>>::empty()) by {
                    if exists|p: Seq<char>| lib_packages(prev, krate@).contains(p) {
                        let p = choose|p: Seq<char>| lib_packages(prev, krate@).contains(p);
                        let i = choose|i: int| 0 <= i < prev.len() && #[trigger] prev[i].1 == krate@ && prev[i].0 == p;
                        assert(lib_crates(prev).contains(krate@));
                        assert(old_crates.contains(krate@));
                    }
                }
                assert(names(group@) =~= seq![package@]);
                assert(seq![package@].to_set() =~= Set::<Seq<char>>::empty().insert(package@)) by {
                    assert forall|x: Seq<char>| #[trigger] seq![package@].to_set().contains(x) <==> x == package@ by {
                        if x == package@ {
                            assert(seq![package@][0] == x);
                        }
                    }
                }
                assert forall|k: int|
                    0 <= k < members@.len() implies ordered_names(names(#[trigger] members@[k]@)) && names(members@[k]@).to_set()
                        == lib_packages(next, crates@[k]@) by {
                    if k != q {
                        let src = if k < q { k } else { k - 1 };
                        assert(members@[k] == old_members[src]);
                        assert(crates@[k]@ == old_crates[src]);
                        assert(old_crates[src] != krate@) by {
                            if old_crates[src] == krate@ {
                                lemma_bytes_order(encode_utf8(krate@), encode_utf8(krate@), encode_utf8(krate@));
                                if src < q {
                                    assert(bytes_lt(encode_utf8(crates@[src]@), encode_utf8(krate@)));
                                } else {
                                    assert(bytes_lt(encode_utf8(krate@), encode_utf8(crates@[src + 1]@)));
                                }
                            }
                        }
                    }
                }
            }
        }
        n = n + 1;
    }
    proof {
        assert(lv.take(n as int) =~= lv);
    }
    let ghost table = Seq::new(
        crates@.len(),
        |k: int| (crates@[k]@, names(members@[k]@)),
    );
    proof {
        assert(table.map_values(|e: (Seq<char>, Seq<Seq<char>>)| e.0) =~= names(crates@));
        assert(crate_table(table, lv));
    }
    let mut conflicts: Vec<String> = Vec::new();
    let mut k: usize = 0;
    while k < crates.len()
        invariant
            crates@.len() == members@.len(),
            table.len() == crates@.len(),
            forall|x: int| 0 <= x < table.len() ==> #[trigger] table[x] == (crates@[x]@, names(members@[x]@)),
            k <= crates@.len(),
            names(conflicts@) == conflicts_upto(table, k as int),
        decreases crates@.len() - k,
    {
        if members[k].len() > 1 {
            let mut quoted: Vec<String> = Vec::new();
            let mut x: usize = 0;
            while x < members[k].len()
                invariant
                    k < members@.len(),
                    x <= members@[k as int]@.len(),
                    names(quoted@) == names(members@[k as int]@).take(x as int).map_values(
                        |p: Seq<char>| "`"@ + p + "`"@,
                    ),
                decreases members@[k as int]@.len() - x,
            {
                let mut q = String::from_str("`");
                q.append(members[k][x].as_str());
                q.append("`");
                let ghost before = names(quoted@);
                let ghost qv = q@;
                quoted.push(q);
                proof {
                    let all = names(members@[k as int]@);
                    assert(all[x as int] == members@[k as int]@[x as int]@);
                    assert(qv == "`"@ + all[x as int] + "`"@);
                    assert(names(quoted@) =~= before.push(qv));
                    assert(all.take(x + 1) =~= all.take(x as int).push(all[x as int]));
                    assert(all.take(x + 1).map_values(|p: Seq<char>| "`"@ + p + "`"@) =~= all.take(x as int).map_values(
                        |p: Seq<char>| "`"@ + p + "`"@,
                    ).push("`"@ + all[x as int] + "`"@));
                    assert(names(quoted@) =~= names(members@[k as int]@).take(x + 1).map_values(
                        |p: Seq<char>| "`"@ + p + "`"@,
                    ));
                }
                x = x + 1;
            }
            proof {
                assert(names(members@[k as int]@).take(x as int) =~= names(members@[k as int]@));
            }
            let mut text = String::from_str("`");
            text.append(crates[k].as_str());
            text.append("` (");
            let list = join_strings(&quoted, ", ");
            text.append(list.as_str());
            text.append(")");
            let ghost before = names(conflicts@);
            conflicts.push(text);
            proof {
                assert(table[k as int] == (crates@[k as int]@, names(members@[k as int]@)));
                assert(names(conflicts@) =~= before.push(conflict_text(crates@[k as int]@, names(members@[k as int]@))));
            }
        }
        k = k + 1;
    }
    if conflicts.len() == 0 {
        proof {
            assert forall|i: int, j: int|
                0 <= i < lv.len() && 0 <= j < lv.len() && (#[trigger] lv[i]).1 == (#[trigger] lv[j]).1 implies lv[i].0
                == lv[j].0 by {
                lemma_no_conflict(table, lv, i, j);
            }
        }
        Ok(crates)
    } else {
        let mut m = String::from_str("workspace library crate names must be unique; conflicting names: ");
        let list = join_strings(&conflicts, "; ");
        m.append(list.as_str());
        m.append(
            ". Hawk identifies graph definitions and fix targets by crate name; give each `[lib]` target a unique `name`",
        );
        proof {
            lemma_some_conflict(table, lv);
        }
        Err(m)
    }
}

/// The conflict descriptions of the first `n` entries are empty exactly when
/// none of those entries has two packages.
proof fn lemma_conflicts_empty(table: Seq<(Seq<char>, Seq<Seq<char>>)>, n: int)
    requires
        0 <= n <= table.len(),
    ensures
        conflicts_upto(table, n).len() == 0 <==> forall|k: int| 0 <= k < n ==> (#[trigger] table[k]).1.len() <= 1,
    decreases n,
{
    if n > 0 {
        lemma_conflicts_empty(table, n - 1);
    }
}

/// Without conflict descriptions, each crate has one package.
proof fn lemma_no_conflict(
    table: Seq<(Seq<char>, Seq<Seq<char>>)>,
    libs: Seq<(Seq<char>, Seq<char>)>,
    i: int,
    j: int,
)
    requires
        crate_table(table, libs),
        conflicts_upto(table, table.len() as int).len() == 0,
        0 <= i < libs.len(),
        0 <= j < libs.len(),
        libs[i].1 == libs[j].1,
    ensures
        libs[i].0 == libs[j].0,
{
    lemma_conflicts_empty(table, table.len() as int);
    let c = libs[i].1;
    assert(lib_crates(libs).contains(c));
    let keys = table.map_values(|e: (Seq<char>, Seq<Seq<char>>)| e.0);
    assert(keys.to_set().contains(c));
    let k = choose|k: int| 0 <= k < keys.len() && keys[k] == c;
    assert(table[k].0 == c);
    assert(lib_packages(libs, c).contains(libs[i].0));
    assert(lib_packages(libs, c).contains(libs[j].0));
    let ps = table[k].1;
    assert(ps.to_set().contains(libs[i].0));
    assert(ps.to_set().contains(libs[j].0));
    assert(ps.len() <= 1);
    let x = choose|x: int| 0 <= x < ps.len() && ps[x] == libs[i].0;
    let y = choose|y: int| 0 <= y < ps.len() && ps[y] == libs[j].0;
    assert(x == 0 && y == 0);
}

/// With a conflict description, some crate has two packages.
proof fn lemma_some_conflict(table: Seq<(Seq<char>, Seq<Seq<char>>)>, libs: Seq<(Seq<char>, Seq<char>)>)
    requires
        crate_table(table, libs),
        conflicts_upto(table, table.len() as int).len() > 0,
    ensures
        exists|i: int, j: int|
            0 <= i < libs.len() && 0 <= j < libs.len() && (#[trigger] libs[i]).1 == (#[trigger] libs[j]).1 && libs[i].0
                != libs[j].0,
{
    lemma_conflicts_empty(table, table.len() as int);
    let k = choose|k: int| 0 <= k < table.len() && !((#[trigger] table[k]).1.len() <= 1);
    let ps = table[k].1;
    let c = table[k].0;
    assert(ordered_names(ps));
    assert(bytes_lt(encode_utf8(ps[0]), encode_utf8(ps[1])));
    lemma_bytes_order(encode_utf8(ps[0]), encode_utf8(ps[0]), encode_utf8(ps[0]));
    assert(ps[0] != ps[1]);
    assert(ps.to_set().contains(ps[0]));
    assert(ps.to_set().contains(ps[1]));
    assert(lib_packages(libs, c).contains(ps[0]));
    assert(lib_packages(libs, c).contains(ps[1]));
    let i = choose|i: int| 0 <= i < libs.len() && #[trigger] libs[i].1 == c && libs[i].0 == ps[0];
    let j = choose|j: int| 0 <= j < libs.len() && #[trigger] libs[j].1 == c && libs[j].0 == ps[1];
    assert(libs[i].1 == libs[j].1 && libs[i].0 != libs[j].0);
}

} // verus!
