//! Whether a project library holds what its lockfile asks for.
use crate::lockfile::{Lockfile, Package};
use crate::metadata::Version;
use crate::order::{increasing, Order, Total};
use crate::resolver::PackageVersion;
use crate::sorted::{SortedSet, TextMap};
use crate::text;
use crate::text::{is_number, joined, number_value, opt_text, texts};
use vstd::prelude::*;

verus! {

/// A package that is installed in another version than the locked one.
#[derive(Debug)]
pub struct VersionMismatch {
    pub package: String,
    pub expected: String,
    pub installed: String,
}

impl VersionMismatch {
    /// The package and the two versions, as characters.
    pub open spec fn view(&self) -> (Seq<char>, Seq<char>, Seq<char>) {
        (self.package@, self.expected@, self.installed@)
    }
}

/// How a library differs from what is locked.
#[derive(Debug)]
pub struct LibraryMismatches {
    pub missing_packages: Vec<String>,
    pub extra_packages: Vec<String>,
    pub version_mismatches: Vec<VersionMismatch>,
}

/// The mismatches of versions, as characters.
pub open spec fn mismatch_views(v: Seq<VersionMismatch>) -> Seq<(Seq<char>, Seq<char>, Seq<char>)> {
    v.map_values(|m: VersionMismatch| m@)
}

/// The names that are not installed.
pub open spec fn missing_of(
    names: Seq<Seq<char>>,
    installed: Map<Seq<char>, PackageVersion>,
) -> Seq<Seq<char>>
    decreases names.len(),
{
    if names.len() == 0 {
        Seq::empty()
    } else {
        let rest = missing_of(names.drop_last(), installed);
        if installed.contains_key(names.last()) {
            rest
        } else {
            rest.push(names.last())
        }
    }
}

/// The names that are neither expected nor the project itself.
pub open spec fn extra_of(
    names: Seq<Seq<char>>,
    expected: Map<Seq<char>, Version>,
    root: Option<Seq<char>>,
) -> Seq<Seq<char>>
    decreases names.len(),
{
    if names.len() == 0 {
        Seq::empty()
    } else {
        let rest = extra_of(names.drop_last(), expected, root);
        if expected.contains_key(names.last()) || root == Some(names.last()) {
            rest
        } else {
            rest.push(names.last())
        }
    }
}

/// The names that are installed in another version than the expected one.
pub open spec fn differing_of(
    names: Seq<Seq<char>>,
    expected: Map<Seq<char>, Version>,
    installed: Map<Seq<char>, PackageVersion>,
) -> Seq<(Seq<char>, Seq<char>, Seq<char>)>
    decreases names.len(),
{
    if names.len() == 0 {
        Seq::empty()
    } else {
        let rest = differing_of(names.drop_last(), expected, installed);
        let name = names.last();
        if installed.contains_key(name) && expected[name]@.order(installed[name].version@)
            != Order::Equal {
            rest.push((name, expected[name].text@, installed[name].version.text@))
        } else {
            rest
        }
    }
}

/// The root that may be there.
pub open spec fn opt_root(root: Option<&str>) -> Option<Seq<char>> {
    match root {
        Some(name) => Some(name@),
        None => None,
    }
}

/// How what is installed differs from what is expected; the project itself may be installed.
pub fn library_mismatches(
    expected: &TextMap<Version>,
    installed: &TextMap<PackageVersion>,
    root: Option<&str>,
) -> (r: LibraryMismatches)
    requires
        expected.wf(),
        installed.wf(),
    ensures
        texts(r.missing_packages@) == missing_of(texts(expected.keys@), installed@),
        texts(r.extra_packages@) == extra_of(texts(installed.keys@), expected@, opt_root(root)),
        mismatch_views(r.version_mismatches@) == differing_of(
            texts(expected.keys@),
            expected@,
            installed@,
        ),
{
    let ghost wanted = texts(expected.keys@);
    let ghost present = texts(installed.keys@);
    let mut missing_packages: Vec<String> = Vec::new();
    let mut version_mismatches: Vec<VersionMismatch> = Vec::new();
    let mut i: usize = 0;
    assert(wanted.take(0) =~= Seq::<Seq<char>>::empty());
    assert(texts(missing_packages@) =~= Seq::<Seq<char>>::empty());
    assert(mismatch_views(version_mismatches@) =~= Seq::<
        (Seq<char>, Seq<char>, Seq<char>),
    >::empty());
    while i < expected.keys.len()
        invariant
            i <= expected.keys@.len(),
            expected.wf(),
            installed.wf(),
            wanted == texts(expected.keys@),
            texts(missing_packages@) == missing_of(wanted.take(i as int), installed@),
            mismatch_views(version_mismatches@) == differing_of(
                wanted.take(i as int),
                expected@,
                installed@,
            ),
        decreases expected.keys@.len() - i,
    {
        let name = expected.keys[i].as_str();
        assert(wanted.take(i + 1).drop_last() =~= wanted.take(i as int));
        assert(wanted[i as int] == name@);
        proof {
            expected.lemma_at(i as int);
        }
        match installed.get(name) {
            None => {
                let ghost before = missing_packages@;
                missing_packages.push(name.to_owned());
                assert(texts(missing_packages@) =~= texts(before).push(name@));
            },
            Some(package) => {
                if !expected.values[i].same(&package.version) {
                    let ghost before = version_mismatches@;
                    let mismatch = VersionMismatch {
                        package: name.to_owned(),
                        expected: expected.values[i].text.clone(),
                        installed: package.version.text.clone(),
                    };
                    version_mismatches.push(mismatch);
                    assert(mismatch_views(version_mismatches@) =~= mismatch_views(before).push(
                        mismatch@,
                    ));
                }
            },
        }
        i = i + 1;
    }
    assert(wanted.take(i as int) =~= wanted);
    let mut extra_packages: Vec<String> = Vec::new();
    let mut k: usize = 0;
    assert(present.take(0) =~= Seq::<Seq<char>>::empty());
    assert(texts(extra_packages@) =~= Seq::<Seq<char>>::empty());
    while k < installed.keys.len()
        invariant
            k <= installed.keys@.len(),
            expected.wf(),
            present == texts(installed.keys@),
            texts(extra_packages@) == extra_of(present.take(k as int), expected@, opt_root(root)),
        decreases installed.keys@.len() - k,
    {
        let name = installed.keys[k].as_str();
        assert(present.take(k + 1).drop_last() =~= present.take(k as int));
        assert(present[k as int] == name@);
        let is_root = match root {
            Some(root) => text::same(root, name),
            None => false,
        };
        if !expected.contains_key(name) && !is_root {
            let ghost before = extra_packages@;
            extra_packages.push(name.to_owned());
            assert(texts(extra_packages@) =~= texts(before).push(name@));
        }
        k = k + 1;
    }
    assert(present.take(k as int) =~= present);
    LibraryMismatches { missing_packages, extra_packages, version_mismatches }
}

impl LibraryMismatches {
    /// Nothing differs.
    pub open spec fn exact(&self) -> bool {
        self.missing_packages@.len() == 0 && self.extra_packages@.len() == 0
            && self.version_mismatches@.len() == 0
    }

    /// All that is expected is there.
    pub open spec fn runnable(&self) -> bool {
        self.missing_packages@.len() == 0 && self.version_mismatches@.len() == 0
    }

    /// Whether nothing differs.
    pub fn is_exact(&self) -> (r: bool)
        ensures
            r == self.exact(),
    {
        self.missing_packages.len() == 0 && self.extra_packages.len() == 0
            && self.version_mismatches.len() == 0
    }

    /// Whether all that is expected is there.
    pub fn is_runnable(&self) -> (r: bool)
        ensures
            r == self.runnable(),
    {
        self.missing_packages.len() == 0 && self.version_mismatches.len() == 0
    }

    /// The mismatches that keep a command from running.
    pub fn into_runtime_mismatches(self) -> (r: LibraryMismatches)
        ensures
            r.missing_packages == self.missing_packages,
            r.version_mismatches == self.version_mismatches,
            r.extra_packages@.len() == 0,
            self.runnable() <==> r.exact(),
    {
        LibraryMismatches {
            missing_packages: self.missing_packages,
            extra_packages: Vec::new(),
            version_mismatches: self.version_mismatches,
        }
    }

    /// The mismatches in words, a line each.
    pub fn to_lines(&self) -> (r: Vec<String>)
        ensures
            texts(r@) == mismatch_lines(
                texts(self.missing_packages@),
                texts(self.extra_packages@),
                mismatch_views(self.version_mismatches@),
            ),
    {
        let mut lines: Vec<String> = Vec::new();
        if self.missing_packages.len() > 0 {
            let list = text::join(&self.missing_packages, ", ");
            lines.push(text::cat("Missing packages: ", list.as_str()));
        }
        if self.extra_packages.len() > 0 {
            let list = text::join(&self.extra_packages, ", ");
            lines.push(text::cat("Extra packages: ", list.as_str()));
        }
        let ghost head = texts(lines@);
        let ghost all = mismatch_views(self.version_mismatches@);
        let mut i: usize = 0;
        assert(all.take(0) =~= Seq::<(Seq<char>, Seq<char>, Seq<char>)>::empty());
        assert(head + version_lines(all.take(0)) =~= head);
        while i < self.version_mismatches.len()
            invariant
                i <= self.version_mismatches@.len(),
                all == mismatch_views(self.version_mismatches@),
                texts(lines@) == head + version_lines(all.take(i as int)),
            decreases self.version_mismatches@.len() - i,
        {
            let m = &self.version_mismatches[i];
            assert(all.take(i + 1).drop_last() =~= all.take(i as int));
            assert(all[i as int] == m@);
            let ghost before = lines@;
            let mut line = text::cat4(
                m.package.as_str(),
                ": expected ",
                m.expected.as_str(),
                ", installed ",
            );
            line.push_str(m.installed.as_str());
            lines.push(line);
            assert(texts(lines@) =~= texts(before).push(line@));
            assert(texts(lines@) =~= head + version_lines(all.take(i + 1)));
            i = i + 1;
        }
        assert(all.take(i as int) =~= all);
        assert(texts(lines@) =~= mismatch_lines(
            texts(self.missing_packages@),
            texts(self.extra_packages@),
            all,
        ));
        lines
    }
}

/// A line for each package in another version.
pub open spec fn version_lines(v: Seq<(Seq<char>, Seq<char>, Seq<char>)>) -> Seq<Seq<char>>
    decreases v.len(),
{
    if v.len() == 0 {
        Seq::empty()
    } else {
        let m = v.last();
        version_lines(v.drop_last()).push(m.0 + ": expected "@ + m.1 + ", installed "@ + m.2)
    }
}

/// The mismatches in words.
pub open spec fn mismatch_lines(
    missing: Seq<Seq<char>>,
    extra: Seq<Seq<char>>,
    differing: Seq<(Seq<char>, Seq<char>, Seq<char>)>,
) -> Seq<Seq<char>> {
    let a = if missing.len() > 0 {
        seq!["Missing packages: "@ + joined(missing, ", "@)]
    } else {
        Seq::empty()
    };
    let b = if extra.len() > 0 {
        a.push("Extra packages: "@ + joined(extra, ", "@))
    } else {
        a
    };
    b + version_lines(differing)
}

/// The names that are not among those of the packages of R itself.
pub open spec fn not_brought(names: Seq<Seq<char>>, base: Seq<Seq<char>>) -> Seq<Seq<char>>
    decreases names.len(),
{
    if names.len() == 0 {
        Seq::empty()
    } else {
        let rest = not_brought(names.drop_last(), base);
        if base.contains(names.last()) {
            rest
        } else {
            rest.push(names.last())
        }
    }
}

proof fn lemma_not_brought(names: Seq<Seq<char>>, base: Seq<Seq<char>>)
    ensures
        forall|name: Seq<char>| #[trigger]
            not_brought(names, base).contains(name) <==> names.contains(name) && !base.contains(
                name,
            ),
        increasing(names) ==> increasing(not_brought(names, base)),
    decreases names.len(),
{
    let all = not_brought(names, base);
    if names.len() > 0 {
        let t = names.drop_last();
        let rest = not_brought(t, base);
        lemma_not_brought(t, base);
        assert forall|name: Seq<char>| #[trigger] names.contains(name) <==> t.contains(name)
            || name == names.last() by {
            if names.contains(name) {
                let k = choose|k: int| 0 <= k < names.len() && names[k] == name;
                if k < t.len() {
                    assert(t[k] == name);
                }
            }
            if t.contains(name) {
                let k = choose|k: int| 0 <= k < t.len() && t[k] == name;
                assert(names[k] == name);
            }
            assert(names[names.len() - 1] == names.last());
        }
        assert forall|name: Seq<char>| #[trigger] all.contains(name) <==> names.contains(name)
            && !base.contains(name) by {
            if all.contains(name) {
                let k = choose|k: int| 0 <= k < all.len() && all[k] == name;
                if k < rest.len() {
                    assert(rest[k] == name);
                }
            }
            if rest.contains(name) {
                let k = choose|k: int| 0 <= k < rest.len() && rest[k] == name;
                assert(all[k] == name);
            }
            if !base.contains(names.last()) {
                assert(all[rest.len() as int] == names.last());
            }
        }
        if increasing(names) {
            assert(increasing(t)) by {
                assert forall|i: int, j: int| 0 <= i < j < t.len() implies (#[trigger] t[i]).order(
                    #[trigger] t[j],
                ) == Order::Less by {
                    assert(names[i].order(names[j]) == Order::Less);
                }
            }
            assert forall|i: int, j: int| 0 <= i < j < all.len() implies (#[trigger] all[i]).order(
                #[trigger] all[j],
            ) == Order::Less by {
                if j < rest.len() {
                    assert(rest[i].order(rest[j]) == Order::Less);
                } else {
                    assert(rest.contains(rest[i]));
                    let k = choose|k: int| 0 <= k < t.len() && t[k] == rest[i];
                    assert(names[k].order(names[names.len() - 1]) == Order::Less);
                }
            }
        }
    }
}

/// The packages of a lockfile that R does not bring itself, with their versions.
pub fn expected_packages(lockfile: &Lockfile, base_packages: &SortedSet<String>) -> (r: TextMap<
    Version,
>)
    requires
        lockfile.packages.wf(),
        base_packages.wf(),
    ensures
        r.wf(),
        texts(r.keys@) == not_brought(lockfile@.packages.0, base_packages@),
        forall|name: Seq<char>| #[trigger]
            r@.contains_key(name) <==> lockfile.packages@.contains_key(name)
                && !base_packages@.contains(name),
        forall|name: Seq<char>| #[trigger]
            r@.contains_key(name) ==> r@[name]@ == lockfile.packages@[name].version@,
{
    let packages = &lockfile.packages;
    let ghost names = texts(packages.keys@);
    let ghost base = base_packages@;
    let mut keys: Vec<String> = Vec::new();
    let mut values: Vec<Version> = Vec::new();
    let mut i: usize = 0;
    assert(names.take(0) =~= Seq::<Seq<char>>::empty());
    assert(texts(keys@) =~= not_brought(names.take(0), base));
    while i < packages.keys.len()
        invariant
            i <= packages.keys@.len(),
            packages.wf(),
            names == texts(packages.keys@),
            base == base_packages@,
            keys@.len() == values@.len(),
            texts(keys@) == not_brought(names.take(i as int), base),
            forall|k: int|
                0 <= k < keys@.len() ==> packages@.contains_key((#[trigger] keys@[k])@)
                    && values@[k]@ == packages@[keys@[k]@].version@,
        decreases packages.keys@.len() - i,
    {
        let name = packages.keys[i].as_str();
        let ghost before = keys@;
        proof {
            packages.lemma_at(i as int);
            assert(names[i as int] == name@);
            assert(names.take(i + 1).drop_last() =~= names.take(i as int));
        }
        assert(texts(base_packages.items@) =~= base);
        if !text::holds(&base_packages.items, name) {
            keys.push(name.to_owned());
            values.push(packages.values[i].version.copy());
            assert(texts(keys@) =~= texts(before).push(name@));
        }
        i = i + 1;
    }
    proof {
        assert(names.take(i as int) =~= names);
        lemma_not_brought(names, base);
    }
    let expected = TextMap { keys, values };
    proof {
        assert forall|name: Seq<char>| #[trigger]
            expected@.contains_key(name) <==> lockfile.packages@.contains_key(name)
                && !base.contains(name) by {
            lemma_has_name(expected, name);
            lemma_has_name(*packages, name);
            assert(texts(expected.keys@).contains(name) <==> names.contains(name) && !base.contains(
                name,
            ));
        }
        assert forall|name: Seq<char>| #[trigger]
            expected@.contains_key(name) implies expected@[name]@
            == lockfile.packages@[name].version@ by {
            assert(expected.has_key(name));
            let k = choose|k: int| crate::sorted::key_at(expected.keys@, name, k);
            expected.lemma_at(k);
        }
    }
    expected
}

proof fn lemma_has_name<V>(map: TextMap<V>, name: Seq<char>)
    requires
        map.wf(),
    ensures
        map@.contains_key(name) <==> texts(map.keys@).contains(name),
{
    let names = texts(map.keys@);
    if names.contains(name) {
        let k = choose|k: int| 0 <= k < names.len() && names[k] == name;
        map.lemma_at(k);
    }
    if map@.contains_key(name) {
        assert(map.has_key(name));
        let k = choose|k: int| crate::sorted::key_at(map.keys@, name, k);
        assert(names[k] == name);
    }
}

/// The versions of locked packages.
pub open spec fn locked_versions(packages: Map<Seq<char>, Package>) -> Map<Seq<char>, Version> {
    packages.map_values(|package: Package| package.version)
}

proof fn lemma_differing_views(
    names: Seq<Seq<char>>,
    a: Map<Seq<char>, Version>,
    b: Map<Seq<char>, Version>,
    installed: Map<Seq<char>, PackageVersion>,
)
    requires
        forall|i: int| 0 <= i < names.len() ==> a[#[trigger] names[i]]@ == b[names[i]]@,
    ensures
        differing_of(names, a, installed) == differing_of(names, b, installed),
    decreases names.len(),
{
    if names.len() > 0 {
        let t = names.drop_last();
        assert forall|i: int| 0 <= i < t.len() implies a[#[trigger] t[i]]@ == b[t[i]]@ by {
            assert(t[i] == names[i]);
        }
        lemma_differing_views(t, a, b, installed);
        let last = names[names.len() - 1];
        assert(a[last]@ == b[last]@);
        assert(a[last]@.text == a[last].text@);
        assert(b[last]@.text == b[last].text@);
    }
}

/// How often commands may call each other.
pub const MAX_RECURSION_DEPTH: u32 = 100;

/// Why a command is not run.
#[derive(Debug)]
pub enum RunError {
    InvalidRecursionDepth { value: String },
    RecursionLimit,
    LibraryOutOfSync { mismatches: LibraryMismatches },
}

/// A number, with or without a plus sign, that fits in 32 bits.
pub open spec fn depth_value(value: Seq<char>) -> Option<nat> {
    let digits = if value.len() > 0 && value[0] == '+' {
        value.skip(1)
    } else {
        value
    };
    if is_number(digits) && number_value(digits) <= u32::MAX {
        Some(number_value(digits))
    } else {
        None
    }
}

fn parse_depth(value: &str) -> (r: Option<u32>)
    ensures
        match r {
            Some(n) => depth_value(value@) == Some(n as nat),
            None => depth_value(value@) is None,
        },
{
    let v = text::chars_of(value);
    let mut i: usize = 0;
    if v.len() > 0 && v[0] == '+' {
        i = 1;
    }
    let ghost digits = v@.skip(i as int);
    assert(v@.skip(0) =~= v@);
    if i == v.len() {
        return None;
    }
    let start: usize = i;
    let mut n: u64 = 0;
    let mut large = false;
    assert(digits.take(0) =~= Seq::<char>::empty());
    while i < v.len()
        invariant
            start <= i <= v@.len(),
            digits == v@.skip(start as int),
            v@ == value@,
            digits.len() > 0,
            digits == if value@.len() > 0 && value@[0] == '+' {
                value@.skip(1)
            } else {
                value@
            },
            forall|k: int| 0 <= k < i - start ==> text::is_digit(#[trigger] digits[k]),
            !large ==> n <= u32::MAX && n == number_value(digits.take(i - start)),
            large ==> number_value(digits.take(i - start)) > u32::MAX,
        decreases v@.len() - i,
    {
        let c: char = v[i];
        assert(digits[i - start] == c);
        if !text::digit(c) {
            return None;
        }
        assert(digits.take(i - start + 1).drop_last() =~= digits.take(i - start));
        assert(digits.take(i - start + 1).last() == c);
        if !large {
            n = n * 10 + (c as u64 - '0' as u64);
            if n > 0xffff_ffff {
                large = true;
            }
        }
        i = i + 1;
    }
    assert(digits.take(i - start) =~= digits);
    if large {
        None
    } else {
        Some(n as u32)
    }
}

/// How deep commands have called each other, by what the environment says of it.
pub fn recursion_depth(value: Option<String>) -> (r: Result<u32, RunError>)
    ensures
        match r {
            Ok(depth) => depth <= MAX_RECURSION_DEPTH && match value {
                Some(value) => depth_value(value@) == Some(depth as nat),
                None => depth == 0,
            },
            Err(RunError::InvalidRecursionDepth { value: named }) => opt_text(value) == Some(
                named@,
            ) && depth_value(named@) is None,
            Err(RunError::RecursionLimit) => value is Some && depth_value(value->0@) is Some
                && depth_value(value->0@)->0 > MAX_RECURSION_DEPTH,
            Err(_) => false,
        },
{
    let value = match value {
        Some(value) => value,
        None => {
            return Ok(0);
        },
    };
    match parse_depth(value.as_str()) {
        None => Err(RunError::InvalidRecursionDepth { value }),
        Some(depth) => if depth > MAX_RECURSION_DEPTH {
            Err(RunError::RecursionLimit)
        } else {
            Ok(depth)
        },
    }
}

/// Lets a command run if all that is locked is installed.
pub fn check_library(
    lockfile: &Lockfile,
    base_packages: &SortedSet<String>,
    installed: &TextMap<PackageVersion>,
) -> (r: Result<(), RunError>)
    requires
        lockfile.packages.wf(),
        base_packages.wf(),
        installed.wf(),
    ensures
        match r {
            Ok(_) => forall|name: Seq<char>|
                lockfile.packages@.contains_key(name) && !base_packages@.contains(name)
                    ==> #[trigger] installed@.contains_key(name)
                    && lockfile.packages@[name].version@.order(installed@[name].version@)
                    == Order::Equal,
            Err(RunError::LibraryOutOfSync { mismatches }) => {
                let expected = not_brought(lockfile@.packages.0, base_packages@);
                &&& !mismatches.runnable()
                &&& texts(mismatches.missing_packages@) == missing_of(expected, installed@)
                &&& mismatch_views(mismatches.version_mismatches@) == differing_of(
                    expected,
                    locked_versions(lockfile.packages@),
                    installed@,
                )
                &&& mismatches.extra_packages@.len() == 0
                &&& exists|name: Seq<char>| #[trigger]
                    lockfile.packages@.contains_key(name) && !base_packages@.contains(name) && (
                    !installed@.contains_key(name) || lockfile.packages@[name].version@.order(
                        installed@[name].version@,
                    ) != Order::Equal)
            },
            Err(_) => false,
        },
{
    let expected = expected_packages(lockfile, base_packages);
    let mismatches = library_mismatches(&expected, installed, None);
    let ghost names = texts(expected.keys@);
    proof {
        assert forall|name: Seq<char>| #[trigger]
            expected@.contains_key(name) <==> names.contains(name) by {
            lemma_has_name(expected, name);
        }
        lemma_missing(names, installed@);
        lemma_differing(names, expected@, installed@);
        let locked = locked_versions(lockfile.packages@);
        assert forall|i: int| 0 <= i < names.len() implies expected@[#[trigger] names[i]]@
            == locked[names[i]]@ by {
            assert(names.contains(names[i]));
            assert(expected@.contains_key(names[i]));
        }
        lemma_differing_views(names, expected@, locked, installed@);
    }
    if mismatches.is_runnable() {
        assert forall|name: Seq<char>|
            lockfile.packages@.contains_key(name) && !base_packages@.contains(
                name,
            ) implies #[trigger] installed@.contains_key(name)
            && lockfile.packages@[name].version@.order(installed@[name].version@)
            == Order::Equal by {
            assert(expected@.contains_key(name));
            assert(names.contains(name));
            assert(texts(mismatches.missing_packages@).len() == 0);
            assert(mismatch_views(mismatches.version_mismatches@).len() == 0);
        }
        Ok(())
    } else {
        proof {
            assert(texts(mismatches.missing_packages@).len() > 0 || mismatch_views(
                mismatches.version_mismatches@,
            ).len() > 0);
            let name = choose|name: Seq<char>| #[trigger]
                names.contains(name) && (!installed@.contains_key(name)
                    || expected@[name]@.order(installed@[name].version@) != Order::Equal);
            assert(expected@.contains_key(name));
            assert(lockfile.packages@.contains_key(name));
        }
        Err(RunError::LibraryOutOfSync { mismatches: mismatches.into_runtime_mismatches() })
    }
}

proof fn lemma_missing(names: Seq<Seq<char>>, installed: Map<Seq<char>, PackageVersion>)
    ensures
        missing_of(names, installed).len() == 0 ==> forall|name: Seq<char>| #[trigger]
            names.contains(name) ==> installed.contains_key(name),
        missing_of(names, installed).len() > 0 ==> exists|name: Seq<char>| #[trigger]
            names.contains(name) && !installed.contains_key(name),
    decreases names.len(),
{
    if names.len() > 0 {
        let t = names.drop_last();
        lemma_missing(t, installed);
        assert(names.contains(names.last()));
        assert forall|name: Seq<char>| #[trigger] names.contains(name) implies t.contains(name)
            || name == names.last() by {
            let k = choose|k: int| 0 <= k < names.len() && names[k] == name;
            if k < t.len() {
                assert(t[k] == name);
            }
        }
        assert forall|name: Seq<char>| #[trigger] t.contains(name) implies names.contains(name) by {
            let k = choose|k: int| 0 <= k < t.len() && t[k] == name;
            assert(names[k] == name);
        }
    }
}

proof fn lemma_differing(
    names: Seq<Seq<char>>,
    expected: Map<Seq<char>, Version>,
    installed: Map<Seq<char>, PackageVersion>,
)
    ensures
        differing_of(names, expected, installed).len() == 0 ==> forall|name: Seq<char>| #[trigger]
            names.contains(name) && installed.contains_key(name) ==> expected[name]@.order(
                installed[name].version@,
            ) == Order::Equal,
        differing_of(names, expected, installed).len() > 0 ==> exists|name: Seq<char>| #[trigger]
            names.contains(name) && installed.contains_key(name) && expected[name]@.order(
                installed[name].version@,
            ) != Order::Equal,
    decreases names.len(),
{
    if names.len() > 0 {
        let t = names.drop_last();
        lemma_differing(t, expected, installed);
        assert(names.contains(names.last()));
        assert forall|name: Seq<char>| #[trigger] names.contains(name) implies t.contains(name)
            || name == names.last() by {
            let k = choose|k: int| 0 <= k < names.len() && names[k] == name;
            if k < t.len() {
                assert(t[k] == name);
            }
        }
        assert forall|name: Seq<char>| #[trigger] t.contains(name) implies names.contains(name) by {
            let k = choose|k: int| 0 <= k < t.len() && t[k] == name;
            assert(names[k] == name);
        }
    }
}

/// The words for a package that was added or removed.
pub open spec fn parted(
    packages: Seq<Seq<char>>,
    installed: Map<Seq<char>, PackageVersion>,
    present: bool,
) -> Seq<Seq<char>>
    decreases packages.len(),
{
    if packages.len() == 0 {
        Seq::empty()
    } else {
        let rest = parted(packages.drop_last(), installed, present);
        if installed.contains_key(packages.last()) == present {
            rest.push(packages.last())
        } else {
            rest
        }
    }
}

fn part(packages: &Vec<String>, installed: &TextMap<PackageVersion>, present: bool) -> (r:
    SortedSet<String>)
    requires
        installed.wf(),
    ensures
        r.wf(),
        r@ == crate::sorted::collected(parted(texts(packages@), installed@, present)),
{
    let ghost all = texts(packages@);
    let mut set: SortedSet<String> = SortedSet::new();
    let mut i: usize = 0;
    assert(all.take(0) =~= Seq::<Seq<char>>::empty());
    while i < packages.len()
        invariant
            i <= packages@.len(),
            installed.wf(),
            all == texts(packages@),
            set.wf(),
            set@ == crate::sorted::collected(parted(all.take(i as int), installed@, present)),
        decreases packages@.len() - i,
    {
        assert(all.take(i + 1).drop_last() =~= all.take(i as int));
        assert(all[i as int] == packages@[i as int]@);
        if installed.contains_key(packages[i].as_str()) == present {
            proof {
                let rest = parted(all.take(i as int), installed@, present);
                assert(rest.push(all[i as int]).drop_last() =~= rest);
            }
            set.replace(packages[i].clone());
        }
        i = i + 1;
    }
    assert(all.take(i as int) =~= all);
    set
}

/// What is said when packages were removed: which were installed, and which were not.
pub open spec fn removal_lines(
    packages: Seq<Seq<char>>,
    installed: Map<Seq<char>, PackageVersion>,
) -> Seq<Seq<char>> {
    let removed = crate::sorted::collected(parted(packages, installed, true));
    let missing = crate::sorted::collected(parted(packages, installed, false));
    let a = if removed.len() > 0 {
        seq!["Removed "@ + joined(removed, ", "@)]
    } else {
        Seq::empty()
    };
    if missing.len() > 0 {
        a.push(joined(missing, ", "@) + " is already missing from the project library"@)
    } else {
        a
    }
}

/// What is said when packages were removed.
pub fn removal_messages(packages: &Vec<String>, installed: &TextMap<PackageVersion>) -> (r: Vec<
    String,
>)
    requires
        installed.wf(),
    ensures
        texts(r@) == removal_lines(texts(packages@), installed@),
{
    let removed = part(packages, installed, true);
    let missing = part(packages, installed, false);
    assert(texts(removed.items@) =~= removed@);
    assert(texts(missing.items@) =~= missing@);
    let mut lines: Vec<String> = Vec::new();
    if removed.items.len() > 0 {
        let list = text::join(&removed.items, ", ");
        lines.push(text::cat("Removed ", list.as_str()));
    }
    if missing.items.len() > 0 {
        let list = text::join(&missing.items, ", ");
        lines.push(text::cat(list.as_str(), " is already missing from the project library"));
    }
    assert(texts(lines@) =~= removal_lines(texts(packages@), installed@));
    lines
}

/// The project itself does not make a library differ, whether it is installed or not.
pub proof fn the_project_is_optional(
    names: Seq<Seq<char>>,
    expected: Map<Seq<char>, Version>,
    root: Seq<char>,
)
    ensures
        !extra_of(names, expected, Some(root)).contains(root),
    decreases names.len(),
{
    if names.len() > 0 {
        the_project_is_optional(names.drop_last(), expected, root);
        let rest = extra_of(names.drop_last(), expected, Some(root));
        let all = extra_of(names, expected, Some(root));
        if all.contains(root) {
            let k = choose|k: int| 0 <= k < all.len() && all[k] == root;
            if k < rest.len() {
                assert(rest[k] == root);
            }
        }
    }
}

proof fn lemma_pushed(rest: Seq<Seq<char>>, s: Seq<Seq<char>>, name: Seq<char>)
    requires
        s.len() > 0,
    ensures
        rest.push(s.last()).contains(name) <==> rest.contains(name) || name == s.last(),
        s.contains(name) <==> s.drop_last().contains(name) || name == s.last(),
{
    let t = s.drop_last();
    let all = rest.push(s.last());
    if all.contains(name) {
        let i = choose|i: int| 0 <= i < all.len() && all[i] == name;
        if i < rest.len() {
            assert(rest[i] == name);
        }
    }
    if rest.contains(name) {
        let i = choose|i: int| 0 <= i < rest.len() && rest[i] == name;
        assert(all[i] == name);
    }
    assert(all[all.len() - 1] == s.last());
    if s.contains(name) {
        let i = choose|i: int| 0 <= i < s.len() && s[i] == name;
        if i < t.len() {
            assert(t[i] == name);
        }
    }
    if t.contains(name) {
        let i = choose|i: int| 0 <= i < t.len() && t[i] == name;
        assert(s[i] == name);
    }
    assert(s[s.len() - 1] == s.last());
}

/// A package is missing exactly if it is expected and not installed.
pub proof fn missing_packages_are_not_installed(
    names: Seq<Seq<char>>,
    installed: Map<Seq<char>, PackageVersion>,
    name: Seq<char>,
)
    ensures
        missing_of(names, installed).contains(name) <==> names.contains(name)
            && !installed.contains_key(name),
    decreases names.len(),
{
    if names.len() > 0 {
        missing_packages_are_not_installed(names.drop_last(), installed, name);
        lemma_pushed(missing_of(names.drop_last(), installed), names, name);
    }
}

/// A package is extra exactly if it is installed, not expected and not the project itself.
pub proof fn extra_packages_are_not_expected(
    names: Seq<Seq<char>>,
    expected: Map<Seq<char>, Version>,
    root: Option<Seq<char>>,
    name: Seq<char>,
)
    ensures
        extra_of(names, expected, root).contains(name) <==> names.contains(name)
            && !expected.contains_key(name) && root != Some(name),
    decreases names.len(),
{
    if names.len() > 0 {
        extra_packages_are_not_expected(names.drop_last(), expected, root, name);
        lemma_pushed(extra_of(names.drop_last(), expected, root), names, name);
    }
}

/// A package differs exactly if it is expected and installed, in versions that are not equal;
/// both versions are told as they are spelled.
pub proof fn differing_packages_are_told(
    names: Seq<Seq<char>>,
    expected: Map<Seq<char>, Version>,
    installed: Map<Seq<char>, PackageVersion>,
    entry: (Seq<char>, Seq<char>, Seq<char>),
)
    ensures
        differing_of(names, expected, installed).contains(entry) <==> {
            &&& names.contains(entry.0)
            &&& installed.contains_key(entry.0)
            &&& crate::metadata::components_order(
                expected[entry.0].components@,
                installed[entry.0].version.components@,
            ) != Order::Equal
            &&& entry.1 == expected[entry.0].text@
            &&& entry.2 == installed[entry.0].version.text@
        },
    decreases names.len(),
{
    if names.len() > 0 {
        let t = names.drop_last();
        let rest = differing_of(t, expected, installed);
        let all = differing_of(names, expected, installed);
        differing_packages_are_told(t, expected, installed, entry);
        lemma_pushed(Seq::empty(), names, entry.0);
        if all.contains(entry) {
            let i = choose|i: int| 0 <= i < all.len() && all[i] == entry;
            if i < rest.len() {
                assert(rest[i] == entry);
            }
        }
        if rest.contains(entry) {
            let i = choose|i: int| 0 <= i < rest.len() && rest[i] == entry;
            assert(all[i] == entry);
        }
        if all.len() > rest.len() {
            assert(all[all.len() - 1] == all.last());
        }
    }
}

/// The packages that are expected are those of the lockfile that R does not bring.
pub proof fn packages_of_r_are_not_expected(
    names: Seq<Seq<char>>,
    base: Seq<Seq<char>>,
    name: Seq<char>,
)
    ensures
        not_brought(names, base).contains(name) <==> names.contains(name) && !base.contains(name),
    decreases names.len(),
{
    if names.len() > 0 {
        packages_of_r_are_not_expected(names.drop_last(), base, name);
        lemma_pushed(not_brought(names.drop_last(), base), names, name);
    }
}

/// The packages that were removed are those that were installed, and the others were missing.
pub proof fn removed_packages_were_installed(
    packages: Seq<Seq<char>>,
    installed: Map<Seq<char>, PackageVersion>,
    present: bool,
    name: Seq<char>,
)
    ensures
        parted(packages, installed, present).contains(name) <==> packages.contains(name)
            && installed.contains_key(name) == present,
    decreases packages.len(),
{
    if packages.len() > 0 {
        removed_packages_were_installed(packages.drop_last(), installed, present, name);
        lemma_pushed(parted(packages.drop_last(), installed, present), packages, name);
    }
}

/// A depth that was handed on is read back, with or without a sign before it, as far as it is
/// within the numbers that are counted with.
pub proof fn depths_are_read_back(n: nat)
    ensures
        n <= u32::MAX ==> depth_value(text::decimal_text(n)) == Some(n),
        n <= u32::MAX ==> depth_value(seq!['+'] + text::decimal_text(n)) == Some(n),
        n > u32::MAX ==> depth_value(text::decimal_text(n)) is None,
        depth_value(Seq::empty()) is None,
{
    let d = text::decimal_text(n);
    text::numbers_are_read_back(n, d, '0');
    assert(text::is_digit(d[0]));
    assert((seq!['+'] + d).skip(1) =~= d);
}

/// One line is said of each package that differs.
pub proof fn differing_packages_have_lines(v: Seq<(Seq<char>, Seq<char>, Seq<char>)>, i: int)
    ensures
        version_lines(v).len() == v.len(),
        0 <= i < v.len() ==> version_lines(v)[i] == v[i].0 + ": expected "@ + v[i].1
            + ", installed "@ + v[i].2,
    decreases v.len(),
{
    if v.len() > 0 {
        differing_packages_have_lines(v.drop_last(), i);
    }
}

/// Missing packages, extra packages and each package in another version have their own lines;
/// where nothing differs there are none.
pub proof fn differences_have_lines(
    missing: Seq<Seq<char>>,
    extra: Seq<Seq<char>>,
    differing: Seq<(Seq<char>, Seq<char>, Seq<char>)>,
)
    ensures
        missing.len() > 0 ==> mismatch_lines(missing, extra, differing)[0] == "Missing packages: "@
            + joined(missing, ", "@),
        missing.len() == 0 && extra.len() > 0 ==> mismatch_lines(missing, extra, differing)[0]
            == "Extra packages: "@ + joined(extra, ", "@),
        missing.len() > 0 && extra.len() > 0 ==> mismatch_lines(missing, extra, differing)[1]
            == "Extra packages: "@ + joined(extra, ", "@),
        mismatch_lines(missing, extra, differing).len() == (if missing.len() > 0 {
            1int
        } else {
            0
        }) + (if extra.len() > 0 {
            1int
        } else {
            0
        }) + version_lines(differing).len(),
        missing.len() == 0 && extra.len() == 0 ==> mismatch_lines(missing, extra, differing)
            == version_lines(differing),
{
    if missing.len() == 0 && extra.len() == 0 {
        assert(mismatch_lines(missing, extra, differing) =~= version_lines(differing));
    }
}

/// A library that nothing is missing from, in which nothing is left over and each version is
/// the expected one, is exact; one in which something is left over can still be used.
pub proof fn exact_libraries_can_be_used(mismatches: LibraryMismatches)
    ensures
        mismatches.exact() <==> mismatches.runnable() && mismatches.extra_packages@.len() == 0,
        mismatches.runnable() <==> mismatches.missing_packages@.len() == 0
            && mismatches.version_mismatches@.len() == 0,
{
}

/// Packages that were removed and packages that were already missing have a line each; where
/// there are none of them there is no line.
pub proof fn removals_have_lines(
    packages: Seq<Seq<char>>,
    installed: Map<Seq<char>, PackageVersion>,
)
    ensures
        ({
            let removed = crate::sorted::collected(parted(packages, installed, true));
            let missing = crate::sorted::collected(parted(packages, installed, false));
            let lines = removal_lines(packages, installed);
            &&& removed.len() > 0 ==> lines[0] == "Removed "@ + joined(removed, ", "@)
            &&& missing.len() > 0 ==> lines.last() == joined(missing, ", "@)
                + " is already missing from the project library"@
            &&& removed.len() == 0 && missing.len() == 0 ==> lines.len() == 0
        }),
{
}

} // verus!
