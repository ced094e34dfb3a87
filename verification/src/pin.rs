//! Pinning of dependencies to what was resolved for them.
use crate::description::{
    add_dependencies, change_outcome, current_fields, fields_added, project_dependencies,
    project_fields, relation_issues, DependencyField, DependencyMutationError, ErrorV,
};
use crate::document::fits;
use crate::metadata::{
    components_order, components_order_coherent, components_order_flips, relation_order,
    versions_below_a_series,
    copy_relations, valid_package, version_components, Comparison, Relation, RelationV,
    RequirementVersion, Version, VersionRequirement, VersionV,
};
use crate::order::{has_equal, increasing, keys, Order, Ordered, Total};
use crate::project::{needed_packages, Project};
use crate::resolution::{description_place, ProjectResolution};
use crate::resolver::meets;
use crate::sorted::{inserted, lemma_inserted, tied, SortedSet};
use crate::sync::RequiredPackage;
use crate::text;
use crate::text::{decimal_text, is_digit, is_number, number_value, split_by};
use vstd::prelude::*;

verus! {

proof fn lemma_decimal(n: nat)
    ensures
        is_number(decimal_text(n)),
        number_value(decimal_text(n)) == n,
    decreases n,
{
    let s = decimal_text(n);
    if n < 10 {
        assert(s.drop_last() =~= Seq::<char>::empty());
        assert(number_value(s.drop_last()) == 0);
    } else {
        lemma_decimal(n / 10);
        assert(s.drop_last() =~= decimal_text(n / 10));
        assert forall|i: int| 0 <= i < s.len() implies is_digit(#[trigger] s[i]) by {
            if i < s.len() - 1 {
                assert(s[i] == decimal_text(n / 10)[i]);
            }
        }
    }
}

proof fn lemma_split_digits(s: Seq<char>, seps: Set<char>)
    requires
        forall|i: int| 0 <= i < s.len() ==> !seps.contains(#[trigger] s[i]),
    ensures
        split_by(s, seps) == seq![s],
    decreases s.len(),
{
    if s.len() > 0 {
        let t = s.drop_last();
        assert forall|i: int| 0 <= i < t.len() implies !seps.contains(#[trigger] t[i]) by {
            assert(t[i] == s[i]);
        }
        lemma_split_digits(t, seps);
        assert(!seps.contains(s[s.len() - 1]));
        assert(split_by(s, seps) =~= seq![t.push(s.last())]);
        assert(t.push(s.last()) =~= s);
    } else {
        assert(s =~= Seq::<char>::empty());
    }
}

/// The spelling of the first version of a major series.
pub open spec fn series_start(major: nat) -> Seq<char> {
    decimal_text(major) + ".0.0"@
}

/// The first version of a major series is one.
proof fn lemma_series_start(major: nat)
    requires
        major <= u32::MAX,
    ensures
        version_components(series_start(major)) == Some(seq![major as u32, 0u32, 0u32]),
{
    let seps = set!['.', '-'];
    let d = decimal_text(major);
    lemma_decimal(major);
    lemma_decimal(0);
    assert forall|i: int| 0 <= i < d.len() implies !seps.contains(#[trigger] d[i]) by {
        assert(is_digit(d[i]));
    }
    lemma_split_digits(d, seps);
    reveal_strlit(".0.0");
    let a = d.push('.');
    let b = a.push('0');
    let c = b.push('.');
    let e = c.push('0');
    assert(e =~= series_start(major));
    let zero = seq!['0'];
    let none = Seq::<char>::empty();
    assert(a.drop_last() =~= d);
    assert(split_by(a, seps) =~= seq![d, none]);
    assert(b.drop_last() =~= a);
    assert(none.push('0') =~= zero);
    assert(split_by(b, seps) =~= seq![d, zero]);
    assert(c.drop_last() =~= b);
    assert(split_by(c, seps) =~= seq![d, zero, none]);
    assert(e.drop_last() =~= c);
    assert(split_by(e, seps) =~= seq![d, zero, zero]);
    let pieces = split_by(e, seps);
    assert(zero =~= decimal_text(0));
    assert forall|i: int| 0 <= i < pieces.len() implies is_number(#[trigger] pieces[i])
        && number_value(pieces[i]) <= u32::MAX by {}
    assert(pieces.map_values(|p: Seq<char>| number_value(p) as u32) =~= seq![
        major as u32,
        0u32,
        0u32,
    ]);
}

/// The relations without the one that asks nothing of the version of a package.
pub open spec fn constrained(s: Seq<RelationV>, package: Seq<char>) -> Seq<RelationV>
    decreases s.len(),
{
    if s.len() == 0 {
        Seq::empty()
    } else {
        let rest = constrained(s.drop_last(), package);
        if s.last().package == package && s.last().requirement is None {
            rest
        } else {
            rest.push(s.last())
        }
    }
}

/// The relations with a package pinned to the major series of a version: at least the
/// version, and below the next series.
pub open spec fn pinned(s: Seq<RelationV>, package: Seq<char>, version: VersionV) -> Seq<RelationV> {
    inserted(
        inserted(
            constrained(s, package),
            RelationV {
                package,
                requirement: Some((Comparison::GreaterThanEqual, version.text)),
            },
        ),
        RelationV {
            package,
            requirement: Some((Comparison::LessThan, series_start(version.components[0] as nat + 1))),
        },
    )
}

proof fn lemma_constrained(s: Seq<RelationV>, package: Seq<char>)
    requires
        increasing(s),
    ensures
        increasing(constrained(s, package)),
        forall|i: int|
            0 <= i < constrained(s, package).len() ==> s.contains(
                #[trigger] constrained(s, package)[i],
            ),
    decreases s.len(),
{
    if s.len() > 0 {
        let t = s.drop_last();
        assert(increasing(t)) by {
            assert forall|i: int, j: int| 0 <= i < j < t.len() implies (#[trigger] t[i]).order(
                #[trigger] t[j],
            ) == Order::Less by {
                assert(s[i].order(s[j]) == Order::Less);
            }
        }
        lemma_constrained(t, package);
        let rest = constrained(t, package);
        let n = constrained(s, package);
        assert forall|i: int| 0 <= i < n.len() implies s.contains(#[trigger] n[i]) by {
            if i < rest.len() {
                assert(t.contains(rest[i]));
                let k = choose|k: int| 0 <= k < t.len() && t[k] == rest[i];
                assert(s[k] == n[i]);
            } else {
                assert(s[s.len() - 1] == n[i]);
            }
        }
        assert forall|i: int, j: int| 0 <= i < j < n.len() implies (#[trigger] n[i]).order(
            #[trigger] n[j],
        ) == Order::Less by {
            if j < rest.len() {
                assert(rest[i].order(rest[j]) == Order::Less);
            } else {
                assert(t.contains(rest[i]));
                let k = choose|k: int| 0 <= k < t.len() && t[k] == rest[i];
                assert(s[k].order(s[s.len() - 1]) == Order::Less);
            }
        }
    }
}

fn drop_unconstrained(relations: &SortedSet<Relation>, package: &str) -> (r: SortedSet<Relation>)
    requires
        relations.wf(),
    ensures
        r.wf(),
        r@ == constrained(relations@, package@),
{
    let ghost all = relations@;
    let mut items: Vec<Relation> = Vec::new();
    let mut i: usize = 0;
    assert(keys(items@) =~= constrained(all.take(0), package@));
    while i < relations.items.len()
        invariant
            i <= relations.items@.len(),
            relations.wf(),
            all == relations@,
            crate::order::all_sound(items@),
            keys(items@) == constrained(all.take(i as int), package@),
        decreases relations.items@.len() - i,
    {
        let relation = &relations.items[i];
        assert(all[i as int] == relation@);
        assert(all.take(i + 1).drop_last() =~= all.take(i as int));
        assert(relations.items@[i as int].sound());
        let open = match relation.requirement {
            VersionRequirement::Any => true,
            _ => false,
        };
        let ghost before = items@;
        if !(open && text::same(relation.package.as_str(), package)) {
            items.push(relation.copy());
            assert(keys(items@) =~= keys(before).push(relation@));
        }
        i = i + 1;
    }
    assert(all.take(i as int) =~= all);
    proof {
        lemma_constrained(all, package@);
    }
    SortedSet { items }
}

/// Pins a package to the major series of the version that was resolved for it.
pub fn pin_dependency_to_resolved_major(
    relations: &mut SortedSet<Relation>,
    package: &str,
    version: &Version,
)
    requires
        old(relations).wf(),
        valid_package(package@),
        version.wf(),
        version.components@[0] < u32::MAX,
    ensures
        final(relations).wf(),
        final(relations)@ == pinned(old(relations)@, package@, version@),
{
    let number: u64 = version.major() as u64 + 1;
    let digits = text::decimal(number);
    let start = text::cat(digits.as_str(), ".0.0");
    proof {
        lemma_series_start(number as nat);
    }
    let next = match Version::parse(start.as_str()) {
        Ok(next) => next,
        Err(_) => {
            assert(false);
            version.copy()
        },
    };
    let mut set = drop_unconstrained(relations, package);
    set.insert(
        Relation {
            package: package.to_owned(),
            requirement: VersionRequirement::Compare(
                Comparison::GreaterThanEqual,
                RequirementVersion::Version(version.copy()),
            ),
        },
    );
    set.insert(
        Relation {
            package: package.to_owned(),
            requirement: VersionRequirement::Compare(
                Comparison::LessThan,
                RequirementVersion::Version(next),
            ),
        },
    );
    *relations = set;
}

/// The relations with each package of a list pinned that is asked for in any version and was
/// resolved.
pub open spec fn pinned_all(
    list: Seq<RelationV>,
    packages: Map<Seq<char>, RequiredPackage>,
    relations: Seq<RelationV>,
) -> Seq<RelationV>
    decreases list.len(),
{
    if list.len() == 0 {
        relations
    } else {
        let rest = pinned_all(list.drop_last(), packages, relations);
        let package = list.last().package;
        if list.last().requirement is None && packages.contains_key(package) {
            pinned(rest, package, packages[package].version@.version)
        } else {
            rest
        }
    }
}

/// The major series of every package that is asked for in any version has a next one.
pub open spec fn series_can_end(
    relations: Seq<RelationV>,
    packages: Map<Seq<char>, RequiredPackage>,
) -> bool {
    forall|i: int|
        0 <= i < relations.len() && (#[trigger] relations[i]).requirement is None
            && packages.contains_key(relations[i].package) ==> {
            let version = packages[relations[i].package].version;
            version.wf() && version.version.components@[0] < u32::MAX
        }
}

fn pin_all(relations: &SortedSet<Relation>, resolution: &ProjectResolution) -> (r: SortedSet<
    Relation,
>)
    requires
        relations.wf(),
        resolution.packages.wf(),
        series_can_end(relations@, resolution.packages@),
    ensures
        r.wf(),
        r@ == pinned_all(relations@, resolution.packages@, relations@),
{
    let ghost all = relations@;
    let ghost packages = resolution.packages@;
    let mut set = copy_relations(relations);
    let mut i: usize = 0;
    assert(all.take(0) =~= Seq::<RelationV>::empty());
    while i < relations.items.len()
        invariant
            i <= relations.items@.len(),
            relations.wf(),
            all == relations@,
            packages == resolution.packages@,
            resolution.packages.wf(),
            series_can_end(all, packages),
            set.wf(),
            set@ == pinned_all(all.take(i as int), packages, all),
        decreases relations.items@.len() - i,
    {
        let relation = &relations.items[i];
        assert(all[i as int] == relation@);
        assert(all.take(i + 1).drop_last() =~= all.take(i as int));
        assert(relations.items@[i as int].sound());
        match relation.requirement {
            VersionRequirement::Any => {
                match resolution.packages.get(relation.package.as_str()) {
                    Some(package) => {
                        pin_dependency_to_resolved_major(
                            &mut set,
                            relation.package.as_str(),
                            &package.version.version,
                        );
                    },
                    None => {},
                }
            },
            _ => {},
        }
        i = i + 1;
    }
    assert(all.take(i as int) =~= all);
    set
}

/// The outcome of adding relations to a field of a description.
pub open spec fn is_added(
    source_name: Seq<char>,
    before: Seq<char>,
    after: Seq<char>,
    relations: Seq<RelationV>,
    field: DependencyField,
    r: Result<(), DependencyMutationError>,
) -> bool {
    if relations.len() == 0 {
        r is Ok && after == before
    } else {
        change_outcome(
            source_name,
            before,
            after,
            match current_fields(before) {
                Ok(fields) => Ok(fields_added(fields, relations, field)),
                Err(issues) => Err(issues),
            },
            r,
        )
    }
}

/// Pins the added packages of a project that are asked for in any version to the major
/// series of what was resolved for them, in its description and in its lockfile.
pub fn pin_unconstrained_dependencies(
    project: &mut Project,
    resolution: &mut ProjectResolution,
    relations: &SortedSet<Relation>,
    dependency_field: DependencyField,
) -> (r: Result<(), DependencyMutationError>)
    requires
        fits(old(project).description@),
        relations.wf(),
        old(resolution).packages.wf(),
        series_can_end(relations@, old(resolution).packages@),
    ensures
        fits(final(project).description@),
        final(project).root == old(project).root,
        final(resolution).packages == old(resolution).packages,
        final(resolution).r_version == old(resolution).r_version,
        ({
            let wanted = pinned_all(relations@, old(resolution).packages@, relations@);
            let source_name = description_place(old(project).root@);
            let document = final(project).description@;
            if tied(wanted, relations@) {
                &&& r is Ok
                &&& *final(project) == *old(project)
                &&& *final(resolution) == *old(resolution)
            } else {
                match r {
                    Ok(_) => {
                        &&& is_added(
                            source_name,
                            old(project).description@,
                            document,
                            wanted,
                            dependency_field,
                            r,
                        )
                        &&& relation_issues(project_fields(document)).len() == 0
                        &&& final(resolution).lockfile_changed
                        &&& final(resolution).lockfile.requirements.wf()
                        &&& final(resolution).lockfile.requirements@ == needed_packages(document)
                        &&& final(resolution).lockfile == (crate::lockfile::Lockfile {
                            requirements: final(resolution).lockfile.requirements,
                            ..old(resolution).lockfile
                        })
                    },
                    Err(error) => {
                        &&& *final(resolution) == *old(resolution)
                        &&& {
                            ||| is_added(
                                source_name,
                                old(project).description@,
                                document,
                                wanted,
                                dependency_field,
                                r,
                            )
                            ||| {
                                &&& is_added(
                                    source_name,
                                    old(project).description@,
                                    document,
                                    wanted,
                                    dependency_field,
                                    Ok::<(), DependencyMutationError>(()),
                                )
                                &&& relation_issues(project_fields(document)).len() > 0
                                &&& error matches DependencyMutationError::Description(error)
                                    && error.wf() && error@ == (ErrorV {
                                    source_name,
                                    source_code: document,
                                    issues: relation_issues(project_fields(document)),
                                })
                            }
                        }
                    },
                }
            }
        }),
{
    let wanted = pin_all(relations, resolution);
    if wanted.same(relations) {
        return Ok(());
    }
    let source_name = project.description_path();
    let added = add_dependencies(
        source_name,
        &mut project.description,
        &wanted,
        dependency_field,
    );
    match added {
        Ok(_) => {},
        Err(error) => {
            return Err(error);
        },
    }
    match project_dependencies(project.description_path(), &project.description) {
        Ok(requirements) => {
            resolution.lockfile.requirements = requirements;
            resolution.lockfile_changed = true;
            Ok(())
        },
        Err(error) => Err(DependencyMutationError::Description(error)),
    }
}

/// A version meets all relations to a package.
pub open spec fn meets_all(s: Seq<RelationV>, package: Seq<char>, c: Seq<u32>) -> bool {
    forall|r: RelationV| #[trigger] s.contains(r) && r.package == package ==> meets(r.requirement, c)
}

proof fn lemma_constrained_members(s: Seq<RelationV>, package: Seq<char>, r: RelationV)
    ensures
        constrained(s, package).contains(r) <==> s.contains(r) && !(r.package == package
            && r.requirement is None),
    decreases s.len(),
{
    let n = constrained(s, package);
    if s.len() > 0 {
        let t = s.drop_last();
        let rest = constrained(t, package);
        lemma_constrained_members(t, package, r);
        if s.contains(r) {
            let k = choose|k: int| 0 <= k < s.len() && s[k] == r;
            if k < t.len() {
                assert(t[k] == r);
            } else if !(r.package == package && r.requirement is None) {
                assert(n[n.len() - 1] == r);
            }
        }
        if t.contains(r) {
            let k = choose|k: int| 0 <= k < t.len() && t[k] == r;
            assert(s[k] == r);
        }
        if rest.contains(r) {
            let k = choose|k: int| 0 <= k < rest.len() && rest[k] == r;
            assert(n[k] == r);
        }
        if n.contains(r) {
            let k = choose|k: int| 0 <= k < n.len() && n[k] == r;
            if k < rest.len() {
                assert(rest[k] == r);
            } else {
                assert(s[s.len() - 1] == r);
            }
        }
    }
}

/// Versions that are equal compare alike with all others.
proof fn lemma_equal_compare_alike(c: Seq<u32>, x: Seq<u32>, y: Seq<u32>)
    requires
        components_order(x, y) == Order::Equal,
    ensures
        components_order(c, x) == components_order(c, y),
{
    components_order_flips(x, y);
    components_order_flips(c, x);
    components_order_flips(c, y);
    components_order_coherent(c, x, y);
    components_order_coherent(c, y, x);
    components_order_coherent(x, y, c);
    components_order_coherent(y, x, c);
}

proof fn lemma_meets_inserted(s: Seq<RelationV>, x: RelationV, c: Seq<u32>)
    requires
        increasing(s),
        x.requirement matches Some((_, operand)) && version_components(operand) is Some,
    ensures
        increasing(inserted(s, x)),
        meets_all(inserted(s, x), x.package, c) <==> meets_all(s, x.package, c) && meets(
            x.requirement,
            c,
        ),
{
    lemma_inserted(s, x);
    let n = inserted(s, x);
    if has_equal(s, x) {
        let i = choose|i: int| 0 <= i < s.len() && (#[trigger] s[i]).order(x) == Order::Equal;
        let y = s[i];
        assert(relation_order(y, x) == Order::Equal);
        crate::metadata::equal_relations_share_their_package(y, x);
        assert(s.contains(y) && n.contains(y));
        match (y.requirement, x.requirement) {
            (Some((d, v)), Some((e, w))) => {
                assert(d == e);
                lemma_equal_compare_alike(c, version_components(v)->0, version_components(w)->0);
            },
            _ => {},
        }
        assert(meets(y.requirement, c) == meets(x.requirement, c));
    } else {
        assert(n.contains(x));
    }
    if meets_all(n, x.package, c) {
        assert forall|r: RelationV| #[trigger] s.contains(r) && r.package == x.package implies meets(
            r.requirement,
            c,
        ) by {
            assert(n.contains(r));
        }
    }
}

/// Pinning a package allows the versions that were allowed before, from the resolved version on
/// and below the next major series, and no others.
pub proof fn pinned_packages_stay_in_their_series(
    s: Seq<RelationV>,
    package: Seq<char>,
    version: VersionV,
    c: Seq<u32>,
)
    requires
        increasing(s),
        version_components(version.text) == Some(version.components),
        version.components[0] < u32::MAX,
    ensures
        meets_all(pinned(s, package, version), package, c) <==> {
            &&& meets_all(s, package, c)
            &&& components_order(c, version.components) != Order::Less
            &&& (if c.len() > 0 {
                c[0] as int
            } else {
                0
            }) <= version.components[0]
        },
{
    let major = (version.components[0] + 1) as u32;
    let low = RelationV {
        package,
        requirement: Some((Comparison::GreaterThanEqual, version.text)),
    };
    let high = RelationV {
        package,
        requirement: Some((Comparison::LessThan, series_start(major as nat))),
    };
    let rest = constrained(s, package);
    lemma_series_start(major as nat);
    lemma_constrained(s, package);
    versions_below_a_series(c, major);
    lemma_meets_inserted(rest, low, c);
    lemma_meets_inserted(inserted(rest, low), high, c);
    assert(meets_all(rest, package, c) <==> meets_all(s, package, c)) by {
        if meets_all(rest, package, c) {
            assert forall|r: RelationV| #[trigger] s.contains(r) && r.package == package implies meets(
                r.requirement,
                c,
            ) by {
                lemma_constrained_members(s, package, r);
            }
        }
        if meets_all(s, package, c) {
            assert forall|r: RelationV| #[trigger] rest.contains(r) && r.package
                == package implies meets(r.requirement, c) by {
                lemma_constrained_members(s, package, r);
            }
        }
    }
}

/// The version that was resolved for a package that was asked for in any version meets what the
/// package is pinned to.
pub proof fn resolved_versions_stay_allowed(s: Seq<RelationV>, package: Seq<char>, version: VersionV)
    requires
        increasing(s),
        forall|r: RelationV| #[trigger] s.contains(r) && r.package == package ==> r.requirement is None,
        version_components(version.text) == Some(version.components),
        version.components[0] < u32::MAX,
    ensures
        meets_all(pinned(s, package, version), package, version.components),
{
    components_order_flips(version.components, version.components);
    pinned_packages_stay_in_their_series(s, package, version, version.components);
}

/// Pinning a package leaves the relations to all others as they are, and leaves none to the
/// package that asks nothing of its version.
pub proof fn pinning_leaves_other_packages(
    s: Seq<RelationV>,
    package: Seq<char>,
    version: VersionV,
    r: RelationV,
)
    requires
        increasing(s),
    ensures
        increasing(pinned(s, package, version)),
        r.package != package ==> (pinned(s, package, version).contains(r) <==> s.contains(r)),
        r.package == package && s.contains(r) && r.requirement is Some ==> pinned(
            s,
            package,
            version,
        ).contains(r),
        r.package == package && r.requirement is None ==> !pinned(s, package, version).contains(r),
{
    let low = RelationV {
        package,
        requirement: Some((Comparison::GreaterThanEqual, version.text)),
    };
    let high = RelationV {
        package,
        requirement: Some((Comparison::LessThan, series_start(version.components[0] as nat + 1))),
    };
    let rest = constrained(s, package);
    lemma_constrained(s, package);
    lemma_constrained_members(s, package, r);
    lemma_inserted(rest, low);
    lemma_inserted(inserted(rest, low), high);
}

/// Some relation of a list asks for a package in any version.
pub open spec fn asks_for_any(list: Seq<RelationV>, package: Seq<char>) -> bool {
    exists|i: int|
        0 <= i < list.len() && (#[trigger] list[i]).package == package && list[i].requirement is None
}

/// Each package that is asked for in any version and was resolved is held in the series of what
/// was resolved for it; what is asked of all other packages stays.
pub proof fn added_packages_stay_in_their_series(
    list: Seq<RelationV>,
    packages: Map<Seq<char>, RequiredPackage>,
    relations: Seq<RelationV>,
    package: Seq<char>,
    c: Seq<u32>,
)
    requires
        increasing(relations),
        series_can_end(list, packages),
    ensures
        increasing(pinned_all(list, packages, relations)),
        asks_for_any(list, package) && packages.contains_key(package) ==> (meets_all(
            pinned_all(list, packages, relations),
            package,
            c,
        ) <==> {
            &&& meets_all(relations, package, c)
            &&& components_order(c, packages[package].version@.version.components) != Order::Less
            &&& (if c.len() > 0 {
                c[0] as int
            } else {
                0
            }) <= packages[package].version@.version.components[0]
        }),
        !(asks_for_any(list, package) && packages.contains_key(package)) ==> forall|r: RelationV|
            r.package == package ==> (#[trigger] pinned_all(list, packages, relations).contains(r)
                <==> relations.contains(r)),
    decreases list.len(),
{
    if list.len() > 0 {
        let t = list.drop_last();
        let last = list.last();
        let rest = pinned_all(t, packages, relations);
        let all = pinned_all(list, packages, relations);
        assert forall|i: int|
            0 <= i < t.len() && (#[trigger] t[i]).requirement is None && packages.contains_key(
                t[i].package,
            ) implies {
            let version = packages[t[i].package].version;
            version.wf() && version.version.components@[0] < u32::MAX
        } by {
            assert(t[i] == list[i]);
        }
        added_packages_stay_in_their_series(t, packages, relations, package, c);
        assert(list[list.len() - 1] == last);
        assert(asks_for_any(list, package) <==> asks_for_any(t, package) || (last.package == package
            && last.requirement is None)) by {
            if asks_for_any(list, package) {
                let i = choose|i: int|
                    0 <= i < list.len() && (#[trigger] list[i]).package == package
                        && list[i].requirement is None;
                if i < t.len() {
                    assert(t[i] == list[i]);
                }
            }
            if asks_for_any(t, package) {
                let i = choose|i: int|
                    0 <= i < t.len() && (#[trigger] t[i]).package == package
                        && t[i].requirement is None;
                assert(list[i] == t[i]);
            }
        }
        if last.requirement is None && packages.contains_key(last.package) {
            let version = packages[last.package].version@.version;
            assert forall|r: RelationV| r.package != last.package implies (
            #[trigger] all.contains(r) <==> rest.contains(r)) by {
                pinning_leaves_other_packages(rest, last.package, version, r);
            }
            pinning_leaves_other_packages(rest, last.package, version, last);
            if last.package == package {
                pinned_packages_stay_in_their_series(rest, package, version, c);
                if !asks_for_any(t, package) {
                    assert(meets_all(rest, package, c) <==> meets_all(relations, package, c)) by {
                        if meets_all(relations, package, c) {
                            assert forall|r: RelationV| #[trigger] rest.contains(r) && r.package
                                == package implies meets(r.requirement, c) by {
                                assert(relations.contains(r));
                            }
                        }
                        if meets_all(rest, package, c) {
                            assert forall|r: RelationV| #[trigger] relations.contains(r)
                                && r.package == package implies meets(r.requirement, c) by {
                                assert(rest.contains(r));
                            }
                        }
                    }
                }
            } else {
                assert(meets_all(all, package, c) <==> meets_all(rest, package, c)) by {
                    if meets_all(rest, package, c) {
                        assert forall|r: RelationV| #[trigger] all.contains(r) && r.package
                            == package implies meets(r.requirement, c) by {
                            assert(rest.contains(r));
                        }
                    }
                    if meets_all(all, package, c) {
                        assert forall|r: RelationV| #[trigger] rest.contains(r) && r.package
                            == package implies meets(r.requirement, c) by {
                            assert(all.contains(r));
                        }
                    }
                }
            }
        }
    }
}

} // verus!
