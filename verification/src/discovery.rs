//! Discovery roots, directory filters and cross-scope collision handling.

use vstd::prelude::*;
use crate::model::{Skill, SkillScope, scope_rank};
use crate::text::{views, seq_before, chars_of, str_equal, concat3, concat5};

verus! {

broadcast use vstd::string::group_string_axioms;

/// One directory tree to scan with its host-assigned scope.
#[derive(Debug)]
pub struct DiscoveryRoot {
    /// Root directory containing one or more skill bundles.
    pub path: String,
    /// Scope assigned to bundles below the root.
    pub scope: SkillScope,
}

impl DiscoveryRoot {
    /// Construct a discovery root.
    pub fn new(path: &str, scope: SkillScope) -> (r: DiscoveryRoot)
        ensures
            r.path@ == path@,
            r.scope == scope,
    {
        DiscoveryRoot { path: String::from_str(path), scope }
    }
}

/// The `Debug` name of a scope.
pub open spec fn scope_name(scope: SkillScope) -> Seq<char> {
    match scope {
        SkillScope::Builtin => "Builtin"@,
        SkillScope::Legacy => "Legacy"@,
        SkillScope::User => "User"@,
        SkillScope::Project => "Project"@,
        SkillScope::Profile => "Profile"@,
        SkillScope::Flow => "Flow"@,
    }
}

fn scope_label(scope: SkillScope) -> (r: &'static str)
    ensures
        r@ == scope_name(scope),
{
    match scope {
        SkillScope::Builtin => "Builtin",
        SkillScope::Legacy => "Legacy",
        SkillScope::User => "User",
        SkillScope::Project => "Project",
        SkillScope::Profile => "Profile",
        SkillScope::Flow => "Flow",
    }
}

/// Where a skill was loaded from, for diagnostics.
pub open spec fn location_text(s: Skill) -> Seq<char> {
    match s.location {
        Some(l) => l@,
        None => "<unknown>"@,
    }
}

/// The location of a skill, or `<unknown>`.
pub fn display_location(s: &Skill) -> (r: String)
    ensures
        r@ == location_text(*s),
{
    match &s.location {
        Some(l) => crate::text::copy_string(l),
        None => String::from_str("<unknown>"),
    }
}

/// Whether two skills share a display name or a directory id.
pub open spec fn collides(a: Skill, b: Skill) -> bool {
    a.name@ == b.name@ || a.dir_name@ == b.dir_name@
}

/// Whether two skills agree on everything but their warnings.
pub open spec fn same_but_warnings(a: Skill, b: Skill) -> bool {
    &&& a.name == b.name
    &&& a.dir_name == b.dir_name
    &&& a.description == b.description
    &&& a.version == b.version
    &&& a.author == b.author
    &&& a.tags == b.tags
    &&& a.platforms == b.platforms
    &&& a.related_skills == b.related_skills
    &&& a.source_format == b.source_format
    &&& a.tools == b.tools
    &&& a.prompts == b.prompts
    &&& a.location == b.location
    &&& a.frontmatter == b.frontmatter
    &&& a.resources == b.resources
    &&& a.scope == b.scope
    &&& a.legacy == b.legacy
    &&& a.body == b.body
}

/// Warning left on the kept skill when a lower-precedence one is ignored.
pub open spec fn msg_ignored(s: Skill) -> Seq<char> {
    "skill id '"@ + s.dir_name@ + "' or name '"@ + s.name@ + "' also declared in "@ + scope_name(
        s.scope,
    ) + " scope at "@ + location_text(s) + " (ignored)"@
}

/// Warning left on the incoming skill for each skill it replaces.
pub open spec fn msg_shadowed(e: Skill) -> Seq<char> {
    "shadowed "@ + scope_name(e.scope) + "-scope skill '"@ + e.name@ + "' (skill id '"@
        + e.dir_name@ + "') at "@ + location_text(e)
}

/// Whether `h` is a collision of `s` in `state` of the highest precedence.
pub open spec fn champion(state: Seq<Skill>, s: Skill, h: int) -> bool {
    &&& 0 <= h < state.len()
    &&& collides(state[h], s)
    &&& forall|i: int|
        0 <= i < state.len() && collides(#[trigger] state[i], s) ==> scope_rank(state[i].scope)
            <= scope_rank(state[h].scope)
}

/// Whether some skill in `state` colliding with `s` has a strictly higher precedence.
pub open spec fn outranked(state: Seq<Skill>, s: Skill) -> bool {
    exists|i: int|
        0 <= i < state.len() && collides(#[trigger] state[i], s) && scope_rank(s.scope)
            < scope_rank(state[i].scope)
}

/// The entries of `state` that do not collide with `s`, in order.
pub open spec fn kept(state: Seq<Skill>, s: Skill) -> Seq<Skill>
    decreases state.len(),
{
    if state.len() == 0 {
        seq![]
    } else if collides(state.last(), s) {
        kept(state.drop_last(), s)
    } else {
        kept(state.drop_last(), s).push(state.last())
    }
}

/// The shadowing warnings for the entries of `state` that collide with `s`, in order.
pub open spec fn shadow_warnings(state: Seq<Skill>, s: Skill) -> Seq<Seq<char>>
    decreases state.len(),
{
    if state.len() == 0 {
        seq![]
    } else if collides(state.last(), s) {
        shadow_warnings(state.drop_last(), s).push(msg_shadowed(state.last()))
    } else {
        shadow_warnings(state.drop_last(), s)
    }
}

/// The warning a kept skill records about a lower-precedence skill `s` that
/// collides with it: `s` was shadowed when it arrived first, ignored when it
/// arrived later.
pub open spec fn outranked_note(s: Skill, arrived_first: bool) -> Seq<char> {
    if arrived_first {
        msg_shadowed(s)
    } else {
        msg_ignored(s)
    }
}

/// The arrival positions of the entries of `state` that do not collide with
/// `s`, in order.
pub open spec fn kept_ages(state: Seq<Skill>, ages: Seq<usize>, s: Skill) -> Seq<usize>
    decreases state.len(),
{
    if state.len() == 0 || ages.len() == 0 {
        seq![]
    } else if collides(state.last(), s) {
        kept_ages(state.drop_last(), ages.drop_last(), s)
    } else {
        kept_ages(state.drop_last(), ages.drop_last(), s).push(ages.last())
    }
}

/// The arrival positions of the entries after `s`, arriving at `age`, is absorbed.
pub open spec fn ages_after(state: Seq<Skill>, ages: Seq<usize>, s: Skill, age: usize) -> Seq<usize> {
    if outranked(state, s) {
        ages
    } else {
        kept_ages(state, ages, s).push(age)
    }
}

/// Whether `s`, arriving at `age`, arrived ahead of the entry at each index
/// of a state whose entries arrived at `ages`.
pub open spec fn arrived_ahead(ages: Seq<usize>, age: usize) -> spec_fn(int) -> bool {
    |h: int| age < ages[h]
}

/// One step of collision resolution: `new` is `old` after `s` arrives.
///
/// If a colliding skill outranks `s`, `s` is dropped and a highest-ranked
/// colliding skill `h` records it: as shadowed when `s` arrived ahead of it
/// (`ahead(h)`), as ignored otherwise. Otherwise every colliding
/// skill is removed and `s` is added, recording each skill it shadowed.
pub open spec fn absorbs(old: Seq<Skill>, s: Skill, ahead: spec_fn(int) -> bool, new: Seq<Skill>) -> bool {
    if outranked(old, s) {
        exists|h: int|
            {
                &&& champion(old, s, h)
                &&& new.len() == old.len()
                &&& forall|i: int| 0 <= i < old.len() && i != h ==> new[i] == old[i]
                &&& same_but_warnings(#[trigger] new[h], old[h])
                &&& views(new[h].warnings@) == views(old[h].warnings@).push(outranked_note(s, ahead(h)))
            }
    } else {
        &&& new.len() >= 1
        &&& new.drop_last() == kept(old, s)
        &&& same_but_warnings(new.last(), s)
        &&& views(new.last().warnings@) == views(s.warnings@) + shadow_warnings(old, s)
    }
}

fn collides_exec(a: &Skill, b: &Skill) -> (r: bool)
    ensures
        r == collides(*a, *b),
{
    str_equal(a.name.as_str(), b.name.as_str()) || str_equal(a.dir_name.as_str(), b.dir_name.as_str())
}

fn ignored_message(s: &Skill) -> (r: String)
    ensures
        r@ == msg_ignored(*s),
{
    let loc = display_location(s);
    let mut m = concat5("skill id '", s.dir_name.as_str(), "' or name '", s.name.as_str(), "' also declared in ");
    m.append(scope_label(s.scope));
    m.append(" scope at ");
    m.append(loc.as_str());
    m.append(" (ignored)");
    m
}

fn shadowed_message(e: &Skill) -> (r: String)
    ensures
        r@ == msg_shadowed(*e),
{
    let loc = display_location(e);
    let mut m = concat3("shadowed ", scope_label(e.scope), "-scope skill '");
    m.append(e.name.as_str());
    m.append("' (skill id '");
    m.append(e.dir_name.as_str());
    m.append("') at ");
    m.append(loc.as_str());
    m
}

fn push_text(warnings: &mut Vec<String>, w: String)
    ensures
        views(final(warnings)@) == views(old(warnings)@).push(w@),
{
    let ghost before = warnings@;
    warnings.push(w);
    assert(views(warnings@) =~= views(before).push(w@));
}

/// Add one skill, which arrived at position `age`, to a collision-free set of
/// skills whose arrival positions are `ages` (see [`absorbs`] and
/// [`ages_after`]).
pub fn absorb(state: &mut Vec<Skill>, ages: &mut Vec<usize>, skill: Skill, age: usize)
    requires
        old(ages)@.len() == old(state)@.len(),
    ensures
        absorbs(old(state)@, skill, arrived_ahead(old(ages)@, age), final(state)@),
        final(ages)@ == ages_after(old(state)@, old(ages)@, skill, age),
        final(ages)@.len() == final(state)@.len(),
        collision_free(old(state)@) ==> collision_free(final(state)@),
{
    let ghost old_state = state@;
    let ghost old_ages = ages@;
    // the last colliding entry of the highest precedence
    let mut best: Option<usize> = None;
    let mut i: usize = 0;
    while i < state.len()
        invariant
            state@ == old_state,
            i <= state@.len(),
            best matches Some(h) ==> h < i && collides(state@[h as int], skill) && forall|k: int|
                0 <= k < i && collides(#[trigger] state@[k], skill) ==> scope_rank(state@[k].scope)
                    <= scope_rank(state@[h as int].scope),
            best is None ==> forall|k: int| 0 <= k < i ==> !collides(#[trigger] state@[k], skill),
        decreases state@.len() - i,
    {
        if collides_exec(&state[i], &skill) {
            match best {
                Some(h) => {
                    if state[h].scope.precedence() <= state[i].scope.precedence() {
                        best = Some(i);
                    }
                },
                None => {
                    best = Some(i);
                },
            }
        }
        i += 1;
    }
    if let Some(h) = best {
        if skill.scope.precedence() < state[h].scope.precedence() {
            let message = if age < ages[h] {
                shadowed_message(&skill)
            } else {
                ignored_message(&skill)
            };
            assert(message@ == outranked_note(skill, arrived_ahead(old_ages, age)(h as int)));
            let mut e = state.remove(h);
            let ghost e0 = e;
            push_text(&mut e.warnings, message);
            state.insert(h, e);
            assert(champion(old_state, skill, h as int));
            assert(outranked(old_state, skill));
            assert forall|k: int| 0 <= k < old_state.len() && k != h implies state@[k] == old_state[k] by {
                if k < h {
                } else {
                }
            }
            assert(same_but_warnings(state@[h as int], old_state[h as int]));
            proof {
                if collision_free(old_state) {
                    lemma_absorbs_free(old_state, skill, arrived_ahead(old_ages, age), state@);
                }
            }
            return;
        }
    }
    assert(!outranked(old_state, skill));
    let mut skill = skill;
    let ghost s0 = skill;
    let mut rest: Vec<Skill> = Vec::new();
    let mut rest_ages: Vec<usize> = Vec::new();
    std::mem::swap(state, &mut rest);
    std::mem::swap(ages, &mut rest_ages);
    let n = rest.len();
    let mut j: usize = 0;
    while j < n
        invariant
            n == old_state.len(),
            old_ages.len() == n,
            j <= n,
            rest@ == old_state.skip(j as int),
            rest_ages@ == old_ages.skip(j as int),
            state@ == kept(old_state.take(j as int), s0),
            ages@ == kept_ages(old_state.take(j as int), old_ages.take(j as int), s0),
            ages@.len() == state@.len(),
            same_but_warnings(skill, s0),
            views(skill.warnings@) == views(s0.warnings@) + shadow_warnings(old_state.take(j as int), s0),
        decreases n - j,
    {
        let e = rest.remove(0);
        let a = rest_ages.remove(0);
        assert(e == old_state[j as int]);
        assert(a == old_ages[j as int]);
        assert(old_state.take(j + 1).drop_last() == old_state.take(j as int));
        assert(old_state.take(j + 1).last() == e);
        assert(old_ages.take(j + 1).drop_last() == old_ages.take(j as int));
        assert(old_ages.take(j + 1).last() == a);
        assert(rest@ =~= old_state.skip(j + 1));
        assert(rest_ages@ =~= old_ages.skip(j + 1));
        if collides_exec(&e, &skill) {
            let message = shadowed_message(&e);
            let ghost w = views(skill.warnings@);
            push_text(&mut skill.warnings, message);
            assert(views(skill.warnings@) =~= views(s0.warnings@) + shadow_warnings(old_state.take(j + 1), s0));
        } else {
            state.push(e);
            ages.push(a);
        }
        j += 1;
    }
    assert(old_state.take(n as int) == old_state);
    assert(old_ages.take(n as int) == old_ages);
    state.push(skill);
    ages.push(age);
    assert(state@.drop_last() == kept(old_state, s0));
    proof {
        if collision_free(old_state) {
            lemma_absorbs_free(old_state, s0, arrived_ahead(old_ages, age), state@);
        }
    }
}


/// The sort key of a skill: its directory id or its display name.
pub open spec fn sort_key(s: Skill, by_dir: bool) -> Seq<char> {
    if by_dir {
        s.dir_name@
    } else {
        s.name@
    }
}

/// Whether the skills are in non-decreasing order of their keys.
pub open spec fn sorted_by(v: Seq<Skill>, by_dir: bool) -> bool {
    forall|i: int, j: int|
        0 <= i < j < v.len() ==> !seq_before(sort_key(#[trigger] v[j], by_dir), sort_key(#[trigger] v[i], by_dir))
}

fn key_before(a: &Skill, b: &Skill, by_dir: bool) -> (r: bool)
    ensures
        r == seq_before(sort_key(*a, by_dir), sort_key(*b, by_dir)),
{
    if by_dir {
        crate::text::str_before(a.dir_name.as_str(), b.dir_name.as_str())
    } else {
        crate::text::str_before(a.name.as_str(), b.name.as_str())
    }
}

/// Whether a skill's sort key is `key`.
pub open spec fn key_is(by_dir: bool, key: Seq<char>) -> spec_fn(Skill) -> bool {
    |s: Skill| sort_key(s, by_dir) == key
}

/// The skills with each key keep their relative order: for every key, the
/// skills of `r` with that key are those of `v`, in the same order.
pub open spec fn keeps_order(r: Seq<Skill>, v: Seq<Skill>, by_dir: bool) -> bool {
    forall|key: Seq<char>| #[trigger] r.filter(key_is(by_dir, key)) == v.filter(key_is(by_dir, key))
}

proof fn lemma_filter_none(s: Seq<Skill>, pred: spec_fn(Skill) -> bool)
    requires
        forall|i: int| 0 <= i < s.len() ==> !pred(#[trigger] s[i]),
    ensures
        s.filter(pred) == Seq::<Skill>::empty(),
    decreases s.len(),
{
    reveal(Seq::filter);
    if s.len() > 0 {
        lemma_filter_none(s.drop_last(), pred);
        assert(!pred(s[s.len() - 1]));
    }
}

proof fn lemma_filter_one(x: Skill, pred: spec_fn(Skill) -> bool)
    ensures
        seq![x].filter(pred) == (if pred(x) { seq![x] } else { Seq::<Skill>::empty() }),
{
    reveal_with_fuel(Seq::filter, 2);
    assert(seq![x].drop_last() =~= Seq::<Skill>::empty());
}

/// Removing the first element with some key from `rem`, and appending it to
/// `out`, keeps the concatenated filters of every key.
#[verifier::spinoff_prover]
#[verifier::rlimit(40)]
proof fn lemma_move_first(out: Seq<Skill>, rem: Seq<Skill>, m: int, by_dir: bool, key: Seq<char>)
    requires
        0 <= m < rem.len(),
        forall|b: int| 0 <= b < m ==> sort_key(#[trigger] rem[b], by_dir) != sort_key(rem[m], by_dir),
    ensures
        out.push(rem[m]).filter(key_is(by_dir, key)) + rem.remove(m).filter(key_is(by_dir, key))
            == out.filter(key_is(by_dir, key)) + rem.filter(key_is(by_dir, key)),
{
    broadcast use Seq::filter_distributes_over_add;

    let pred = key_is(by_dir, key);
    let x = rem[m];
    let front = rem.take(m);
    let back = rem.skip(m + 1);
    assert(rem =~= front + seq![x] + back);
    assert(rem.remove(m) =~= front + back);
    assert(out.push(x) =~= out + seq![x]);
    lemma_filter_one(x, pred);
    if pred(x) {
        assert forall|i: int| 0 <= i < front.len() implies !pred(#[trigger] front[i]) by {
            assert(front[i] == rem[i]);
        }
        lemma_filter_none(front, pred);
        assert(out.push(x).filter(pred) + rem.remove(m).filter(pred) =~= out.filter(pred) + rem.filter(pred));
    } else {
        assert(out.push(x).filter(pred) + rem.remove(m).filter(pred) =~= out.filter(pred) + rem.filter(pred));
    }
}

/// Sort skills by directory id (`by_dir`) or by display name, keeping equal
/// keys in their input order.
pub fn sort_skills(v: Vec<Skill>, by_dir: bool) -> (r: Vec<Skill>)
    ensures
        sorted_by(r@, by_dir),
        r@.to_multiset() == v@.to_multiset(),
        keeps_order(r@, v@, by_dir),
{
    broadcast use vstd::seq_lib::group_seq_properties;
    broadcast use vstd::multiset::group_multiset_axioms;
    let ghost orig = v@;
    let mut rem = v;
    let mut out: Vec<Skill> = Vec::new();
    assert(out@.to_multiset().add(rem@.to_multiset()) =~= orig.to_multiset());
    proof {
        reveal(Seq::filter);
    }
    assert forall|key: Seq<char>| #[trigger] orig.filter(key_is(by_dir, key)) == out@.filter(key_is(by_dir, key)) + rem@.filter(key_is(by_dir, key)) by {
        reveal(Seq::filter);
        assert(out@.filter(key_is(by_dir, key)) =~= Seq::<Skill>::empty());
        assert(orig.filter(key_is(by_dir, key)) =~= out@.filter(key_is(by_dir, key)) + rem@.filter(key_is(by_dir, key)));
    }
    while rem.len() > 0
        invariant
            out@.to_multiset().add(rem@.to_multiset()) == orig.to_multiset(),
            forall|key: Seq<char>| #[trigger] orig.filter(key_is(by_dir, key)) == out@.filter(key_is(by_dir, key)) + rem@.filter(key_is(by_dir, key)),
            sorted_by(out@, by_dir),
            forall|a: int, b: int|
                0 <= a < out@.len() && 0 <= b < rem@.len() ==> !seq_before(
                    sort_key(#[trigger] rem@[b], by_dir),
                    sort_key(#[trigger] out@[a], by_dir),
                ),
        decreases rem@.len(),
    {
        // the first entry with a minimal key
        let mut m: usize = 0;
        let mut k: usize = 1;
        proof {
            crate::text::lemma_before_irreflexive(sort_key(rem@[0], by_dir));
        }
        while k < rem.len()
            invariant
                0 <= m < k <= rem@.len(),
                forall|b: int| 0 <= b < k ==> !seq_before(sort_key(#[trigger] rem@[b], by_dir), sort_key(rem@[m as int], by_dir)),
                forall|b: int| 0 <= b < m ==> seq_before(sort_key(rem@[m as int], by_dir), sort_key(#[trigger] rem@[b], by_dir)),
            decreases rem@.len() - k,
        {
            if key_before(&rem[k], &rem[m], by_dir) {
                proof {
                    assert forall|b: int| 0 <= b < k + 1 implies !seq_before(sort_key(#[trigger] rem@[b], by_dir), sort_key(rem@[k as int], by_dir)) by {
                        crate::text::lemma_before_total(sort_key(rem@[b], by_dir), sort_key(rem@[k as int], by_dir));
                        if b < k && seq_before(sort_key(rem@[b], by_dir), sort_key(rem@[k as int], by_dir)) {
                            crate::text::lemma_before_transitive(sort_key(rem@[b], by_dir), sort_key(rem@[k as int], by_dir), sort_key(rem@[m as int], by_dir));
                        }
                        if b == k {
                            crate::text::lemma_before_irreflexive(sort_key(rem@[b], by_dir));
                        }
                    }
                    assert forall|b: int| 0 <= b < k implies seq_before(sort_key(rem@[k as int], by_dir), sort_key(#[trigger] rem@[b], by_dir)) by {
                        if b < m {
                            crate::text::lemma_before_transitive(sort_key(rem@[k as int], by_dir), sort_key(rem@[m as int], by_dir), sort_key(rem@[b], by_dir));
                        } else if b > m {
                            crate::text::lemma_before_total(sort_key(rem@[b], by_dir), sort_key(rem@[m as int], by_dir));
                            if sort_key(rem@[b], by_dir) != sort_key(rem@[m as int], by_dir) {
                                crate::text::lemma_before_transitive(sort_key(rem@[k as int], by_dir), sort_key(rem@[m as int], by_dir), sort_key(rem@[b], by_dir));
                            }
                        }
                    }
                }
                m = k;
            } else {
                proof {
                    crate::text::lemma_before_irreflexive(sort_key(rem@[m as int], by_dir));
                }
            }
            k += 1;
        }
        let ghost rem0 = rem@;
        let ghost out0 = out@;
        proof {
            rem0.to_multiset_ensures();
            out0.to_multiset_ensures();
        }
        proof {
            assert forall|b: int| 0 <= b < m implies sort_key(#[trigger] rem0[b], by_dir) != sort_key(rem0[m as int], by_dir) by {
                crate::text::lemma_before_irreflexive(sort_key(rem0[m as int], by_dir));
            }
            assert forall|key: Seq<char>| #[trigger] orig.filter(key_is(by_dir, key)) == out0.push(rem0[m as int]).filter(key_is(by_dir, key)) + rem0.remove(m as int).filter(key_is(by_dir, key)) by {
                lemma_move_first(out0, rem0, m as int, by_dir, key);
            }
        }
        let x = rem.remove(m);
        assert(rem@ == rem0.remove(m as int));
        assert(rem0.remove(m as int).to_multiset() == rem0.to_multiset().remove(rem0[m as int]));
        out.push(x);
        assert(out@ == out0.push(x));
        assert(out@.to_multiset() == out0.to_multiset().insert(x));
        assert(rem0.to_multiset().count(x) > 0) by {
            assert(rem0.contains(x)) by { assert(rem0[m as int] == x); }
        }
        assert(out@.to_multiset().add(rem@.to_multiset()) =~= orig.to_multiset());
        assert forall|a: int, b: int|
            0 <= a < out@.len() && 0 <= b < rem@.len() implies !seq_before(
                sort_key(#[trigger] rem@[b], by_dir),
                sort_key(#[trigger] out@[a], by_dir),
            ) by {
            if b < m {
                assert(rem@[b] == rem0[b]);
            } else {
                assert(rem@[b] == rem0[b + 1]);
            }
            if a < out0.len() {
                assert(out@[a] == out0[a]);
            }
        }
        assert forall|a: int, b: int| 0 <= a < b < out@.len() implies !seq_before(
            sort_key(#[trigger] out@[b], by_dir),
            sort_key(#[trigger] out@[a], by_dir),
        ) by {
            if b < out0.len() {
                assert(out@[a] == out0[a] && out@[b] == out0[b]);
            } else {
                assert(out@[a] == out0[a]);
                assert(rem0[m as int] == out@[b]);
            }
        }
    }
    assert(rem@.to_multiset() =~= vstd::multiset::Multiset::empty());
    assert(out@.to_multiset().add(rem@.to_multiset()) =~= out@.to_multiset());
    assert forall|key: Seq<char>| #[trigger] out@.filter(key_is(by_dir, key)) == orig.filter(key_is(by_dir, key)) by {
        reveal(Seq::filter);
        assert(rem@.filter(key_is(by_dir, key)) =~= Seq::<Skill>::empty());
        assert(out@.filter(key_is(by_dir, key)) + rem@.filter(key_is(by_dir, key)) =~= out@.filter(key_is(by_dir, key)));
    }
    out
}


/// No two skills share a display name or a directory id.
pub open spec fn collision_free(v: Seq<Skill>) -> bool {
    forall|i: int, j: int| 0 <= i < v.len() && 0 <= j < v.len() && i != j ==> !collides(#[trigger] v[i], #[trigger] v[j])
}

/// The states of collision resolution as the skills of `input` arrive one by one.
///
/// `arrivals` gives where each skill of `input` arrived, and `ages` the
/// arrival positions of each state's entries.
pub open spec fn absorb_trace(
    input: Seq<Skill>,
    arrivals: Seq<usize>,
    trace: Seq<Seq<Skill>>,
    ages: Seq<Seq<usize>>,
) -> bool {
    &&& trace.len() == input.len() + 1
    &&& ages.len() == trace.len()
    &&& trace[0].len() == 0
    &&& ages[0].len() == 0
    &&& forall|i: int|
        0 <= i < input.len() ==> absorbs(
            trace[i],
            input[i],
            arrived_ahead(ages[i], arrivals[i]),
            #[trigger] trace[i + 1],
        ) && ages[i + 1] == ages_after(trace[i], ages[i], input[i], arrivals[i])
}

/// Whether `x` agrees with some skill of `v` on everything but warnings.
pub open spec fn has_like(v: Seq<Skill>, x: Skill) -> bool {
    exists|k: int| 0 <= k < v.len() && same_but_warnings(#[trigger] v[k], x)
}

/// Whether `s` outranks every other skill of `input` that shares its name or directory id.
pub open spec fn dominates(input: Seq<Skill>, k: int) -> bool {
    forall|j: int|
        0 <= j < input.len() && j != k && collides(#[trigger] input[j], input[k]) ==> scope_rank(
            input[j].scope,
        ) < scope_rank(input[k].scope)
}

proof fn lemma_kept(old: Seq<Skill>, s: Skill)
    ensures
        forall|i: int| 0 <= i < kept(old, s).len() ==> !collides(#[trigger] kept(old, s)[i], s) && old.contains(kept(old, s)[i]),
        collision_free(old) ==> collision_free(kept(old, s)),
    decreases old.len(),
{
    if old.len() > 0 {
        let prev = old.drop_last();
        lemma_kept(prev, s);
        assert forall|i: int| 0 <= i < kept(old, s).len() implies !collides(#[trigger] kept(old, s)[i], s) && old.contains(kept(old, s)[i]) by {
            if i < kept(prev, s).len() {
                assert(kept(old, s)[i] == kept(prev, s)[i]);
                let k = choose|k: int| 0 <= k < prev.len() && prev[k] == kept(prev, s)[i];
                assert(old[k] == prev[k]);
            } else {
                assert(old[old.len() - 1] == old.last());
            }
        }
        if collision_free(old) {
            assert(collision_free(prev)) by {
                assert forall|i: int, j: int| 0 <= i < prev.len() && 0 <= j < prev.len() && i != j implies !collides(#[trigger] prev[i], #[trigger] prev[j]) by {
                    assert(prev[i] == old[i] && prev[j] == old[j]);
                }
            }
            if !collides(old.last(), s) {
                let kv = kept(old, s);
                assert forall|i: int, j: int| 0 <= i < kv.len() && 0 <= j < kv.len() && i != j implies !collides(#[trigger] kv[i], #[trigger] kv[j]) by {
                    if i < kv.len() - 1 && j < kv.len() - 1 {
                        assert(kv[i] == kept(prev, s)[i] && kv[j] == kept(prev, s)[j]);
                    } else {
                        let other = if i < kv.len() - 1 { i } else { j };
                        assert(kv[other] == kept(prev, s)[other]);
                        let k = choose|k: int| 0 <= k < prev.len() && prev[k] == kept(prev, s)[other];
                        assert(old[k] == prev[k]);
                        assert(old[old.len() - 1] == old.last());
                        assert(!collides(old[k], old[old.len() - 1]));
                    }
                }
            }
        }
    }
}

proof fn lemma_absorbs_free(old: Seq<Skill>, s: Skill, ahead: spec_fn(int) -> bool, new: Seq<Skill>)
    requires
        collision_free(old),
        absorbs(old, s, ahead, new),
    ensures
        collision_free(new),
{
    if outranked(old, s) {
        let h = choose|h: int|
            {
                &&& champion(old, s, h)
                &&& new.len() == old.len()
                &&& forall|i: int| 0 <= i < old.len() && i != h ==> new[i] == old[i]
                &&& same_but_warnings(#[trigger] new[h], old[h])
                &&& views(new[h].warnings@) == views(old[h].warnings@).push(outranked_note(s, ahead(h)))
            };
        assert forall|i: int, j: int| 0 <= i < new.len() && 0 <= j < new.len() && i != j implies !collides(#[trigger] new[i], #[trigger] new[j]) by {
            assert(!collides(old[i], old[j]));
        }
    } else {
        lemma_kept(old, s);
        let kv = kept(old, s);
        assert forall|i: int, j: int| 0 <= i < new.len() && 0 <= j < new.len() && i != j implies !collides(#[trigger] new[i], #[trigger] new[j]) by {
            if i < new.len() - 1 && j < new.len() - 1 {
                assert(new[i] == kv[i] && new[j] == kv[j]);
            } else if i < new.len() - 1 {
                assert(new[i] == kv[i]);
                assert(new[j] == new.last());
            } else {
                assert(new[j] == kv[j]);
                assert(new[i] == new.last());
            }
        }
    }
}

proof fn lemma_absorbs_origin(old: Seq<Skill>, s: Skill, ahead: spec_fn(int) -> bool, new: Seq<Skill>, x: Skill)
    requires
        absorbs(old, s, ahead, new),
        has_like(new, x),
    ensures
        has_like(old, x) || same_but_warnings(s, x),
{
    let a = choose|a: int| 0 <= a < new.len() && same_but_warnings(#[trigger] new[a], x);
    if outranked(old, s) {
        let h = choose|h: int|
            {
                &&& champion(old, s, h)
                &&& new.len() == old.len()
                &&& forall|i: int| 0 <= i < old.len() && i != h ==> new[i] == old[i]
                &&& same_but_warnings(#[trigger] new[h], old[h])
                &&& views(new[h].warnings@) == views(old[h].warnings@).push(outranked_note(s, ahead(h)))
            };
        assert(same_but_warnings(old[a], x));
    } else {
        lemma_kept(old, s);
        if a < new.len() - 1 {
            assert(new[a] == kept(old, s)[a]);
            let k = choose|k: int| 0 <= k < old.len() && old[k] == kept(old, s)[a];
            assert(same_but_warnings(old[k], x));
        } else {
            assert(new[a] == new.last());
        }
    }
}

proof fn lemma_absorbs_keeps(old: Seq<Skill>, s: Skill, ahead: spec_fn(int) -> bool, new: Seq<Skill>, x: Skill)
    requires
        absorbs(old, s, ahead, new),
        has_like(old, x),
        collides(s, x) ==> scope_rank(s.scope) < scope_rank(x.scope),
    ensures
        has_like(new, x),
{
    let a = choose|a: int| 0 <= a < old.len() && same_but_warnings(#[trigger] old[a], x);
    if outranked(old, s) {
        let h = choose|h: int|
            {
                &&& champion(old, s, h)
                &&& new.len() == old.len()
                &&& forall|i: int| 0 <= i < old.len() && i != h ==> new[i] == old[i]
                &&& same_but_warnings(#[trigger] new[h], old[h])
                &&& views(new[h].warnings@) == views(old[h].warnings@).push(outranked_note(s, ahead(h)))
            };
        if a == h {
            assert(same_but_warnings(new[h], x));
        } else {
            assert(same_but_warnings(new[a], x));
        }
    } else {
        assert(!collides(old[a], s));
        lemma_kept_contains(old, s, a);
    }
}

proof fn lemma_kept_contains(old: Seq<Skill>, s: Skill, a: int)
    requires
        0 <= a < old.len(),
        !collides(old[a], s),
    ensures
        kept(old, s).contains(old[a]),
    decreases old.len(),
{
    let prev = old.drop_last();
    if a < old.len() - 1 {
        assert(prev[a] == old[a]);
        lemma_kept_contains(prev, s, a);
        let k = choose|k: int| 0 <= k < kept(prev, s).len() && kept(prev, s)[k] == old[a];
        if !collides(old.last(), s) {
            assert(kept(old, s)[k] == old[a]);
        }
    } else {
        assert(old.last() == old[a]);
        assert(kept(old, s).last() == old[a]);
    }
}

proof fn lemma_absorbs_adds(old: Seq<Skill>, s: Skill, ahead: spec_fn(int) -> bool, new: Seq<Skill>)
    requires
        absorbs(old, s, ahead, new),
        forall|i: int| 0 <= i < old.len() && collides(#[trigger] old[i], s) ==> scope_rank(old[i].scope) < scope_rank(s.scope),
    ensures
        has_like(new, s),
{
    assert(!outranked(old, s));
    assert(same_but_warnings(new[new.len() - 1], s));
}

/// Whether a skill's scope has precedence `p`.
pub open spec fn rank_is(p: int) -> spec_fn(Skill) -> bool {
    |s: Skill| scope_rank(s.scope) == p
}

/// Whether a skill's scope has precedence below `p`.
pub open spec fn rank_below(p: int) -> spec_fn(Skill) -> bool {
    |s: Skill| scope_rank(s.scope) < p
}

/// The skills of `v` with precedence `p` or more, highest precedence first,
/// each precedence keeping the order of `v`.
pub open spec fn ranks_from(v: Seq<Skill>, p: nat) -> Seq<Skill>
    decreases 5 - p,
{
    if p >= 5 {
        v.filter(rank_is(5))
    } else {
        ranks_from(v, p + 1) + v.filter(rank_is(p as int))
    }
}

/// The skills of `v` by descending precedence, those of equal precedence in
/// the order of `v`.
pub open spec fn by_precedence(v: Seq<Skill>) -> Seq<Skill> {
    ranks_from(v, 0)
}

proof fn lemma_filter_push<T>(v: Seq<T>, i: int, pred: spec_fn(T) -> bool)
    requires
        0 <= i < v.len(),
    ensures
        v.take(i + 1).filter(pred) == if pred(v[i]) {
            v.take(i).filter(pred).push(v[i])
        } else {
            v.take(i).filter(pred)
        },
{
    reveal(Seq::filter);
    assert(v.take(i + 1).drop_last() =~= v.take(i));
    assert(v.take(i + 1).last() == v[i]);
}

proof fn lemma_filter_all(v: Seq<Skill>, pred: spec_fn(Skill) -> bool)
    requires
        forall|i: int| 0 <= i < v.len() ==> pred(#[trigger] v[i]),
    ensures
        v.filter(pred) == v,
    decreases v.len(),
{
    reveal(Seq::filter);
    if v.len() > 0 {
        lemma_filter_all(v.drop_last(), pred);
        assert(pred(v[v.len() - 1]));
        assert(v.drop_last().push(v.last()) =~= v);
    }
}

proof fn lemma_filter_filter(
    v: Seq<Skill>,
    p: spec_fn(Skill) -> bool,
    q: spec_fn(Skill) -> bool,
    both: spec_fn(Skill) -> bool,
)
    requires
        forall|s: Skill| #[trigger] both(s) == (p(s) && q(s)),
    ensures
        v.filter(p).filter(q) == v.filter(both),
    decreases v.len(),
{
    reveal(Seq::filter);
    if v.len() > 0 {
        lemma_filter_filter(v.drop_last(), p, q, both);
        let x = v.last();
        assert(both(x) == (p(x) && q(x)));
        if p(x) {
            assert(v.filter(p) == v.drop_last().filter(p).push(x));
            assert(v.filter(p).drop_last() =~= v.drop_last().filter(p));
        }
    }
}

/// Whether a skill's scope has precedence below `p + 1` but not `p`.
pub open spec fn rank_under(p: int) -> spec_fn(Skill) -> bool {
    |s: Skill| scope_rank(s.scope) < p + 1 && scope_rank(s.scope) != p
}

/// Order skills by descending precedence, keeping the order of skills of
/// equal precedence.
pub fn order_by_precedence(skills: Vec<Skill>) -> (r: Vec<Skill>)
    ensures
        r@ == by_precedence(skills@),
{
    let ghost v = skills@;
    proof {
        lemma_filter_all(v, rank_below(6));
    }
    let mut rest = skills;
    let mut out: Vec<Skill> = Vec::new();
    let mut p: u8 = 6;
    while p > 0
        invariant
            p <= 6,
            rest@ == v.filter(rank_below(p as int)),
            p == 6 ==> out@.len() == 0,
            p < 6 ==> out@ == ranks_from(v, p as nat),
        decreases p,
    {
        p = p - 1;
        let ghost rest0 = rest@;
        let ghost out0 = out@;
        let mut keep: Vec<Skill> = Vec::new();
        let ghost mut i: int = 0;
        while rest.len() > 0
            invariant
                0 <= i <= rest0.len(),
                p < 6,
                rest0 == v.filter(rank_below(p as int + 1)),
                rest@.len() == rest0.len() - i,
                rest@ == rest0.skip(i),
                out@ == out0 + rest0.take(i).filter(rank_is(p as int)),
                keep@ == rest0.take(i).filter(rank_under(p as int)),
            decreases rest@.len(),
        {
            let x = rest.remove(0);
            proof {
                assert(x == rest0[i]);
                lemma_filter_push(rest0, i, rank_is(p as int));
                lemma_filter_push(rest0, i, rank_under(p as int));
                assert(rest0[i] == v.filter(rank_below(p as int + 1))[i]);
            }
            assert(rest@ =~= rest0.skip(i + 1));
            if x.scope.precedence() == p {
                out.push(x);
                assert(out@ =~= out0 + rest0.take(i + 1).filter(rank_is(p as int)));
            } else {
                proof {
                    v.lemma_filter_pred(rank_below(p as int + 1), i);
                }
                keep.push(x);
            }
            proof {
                i = i + 1;
            }
        }
        proof {
            assert(rest0.take(i) =~= rest0);
            lemma_filter_filter(v, rank_below(p as int + 1), rank_is(p as int), rank_is(p as int));
            lemma_filter_filter(v, rank_below(p as int + 1), rank_under(p as int), rank_below(p as int));
            if p == 5 {
                assert(out@ =~= ranks_from(v, 5));
            } else {
                assert(out@ =~= ranks_from(v, p as nat));
            }
        }
        rest = keep;
    }
    out
}

/// The positions `0, 1, ..., n - 1`.
pub open spec fn positions(n: nat) -> Seq<usize> {
    Seq::new(n, |i: int| i as usize)
}

/// Whether the skill of `v` at a position has precedence `p`.
pub open spec fn at_rank(v: Seq<Skill>, p: int) -> spec_fn(usize) -> bool {
    |i: usize| scope_rank(v[i as int].scope) == p
}

/// The positions in `v` of its skills with precedence `p` or more, in the
/// order of [`ranks_from`].
pub open spec fn ages_from(v: Seq<Skill>, p: nat) -> Seq<usize>
    decreases 5 - p,
{
    if p >= 5 {
        positions(v.len()).filter(at_rank(v, 5))
    } else {
        ages_from(v, p + 1) + positions(v.len()).filter(at_rank(v, p as int))
    }
}

/// Where each skill of [`by_precedence`] arrived in `v`.
pub open spec fn precedence_ages(v: Seq<Skill>) -> Seq<usize> {
    ages_from(v, 0)
}

proof fn lemma_positions_filter(v: Seq<Skill>, p: int, n: nat)
    requires
        n <= v.len(),
        v.len() <= usize::MAX,
    ensures
        positions(n).filter(at_rank(v, p)).map_values(|i: usize| v[i as int]) == v.take(
            n as int,
        ).filter(rank_is(p)),
    decreases n,
{
    if n == 0 {
        reveal(Seq::filter);
        assert(positions(0).filter(at_rank(v, p)) =~= Seq::<usize>::empty());
        assert(v.take(0).filter(rank_is(p)) =~= Seq::<Skill>::empty());
        assert(positions(0).filter(at_rank(v, p)).map_values(|i: usize| v[i as int]) =~= Seq::<Skill>::empty());
    } else {
        let m = (n - 1) as nat;
        lemma_positions_filter(v, p, m);
        let pn = positions(n);
        assert(pn.take(m as int) =~= positions(m));
        assert(pn.take(m as int + 1) =~= pn);
        lemma_filter_push(pn, m as int, at_rank(v, p));
        lemma_filter_push(v, m as int, rank_is(p));
        assert(pn[m as int] == m as usize);
        assert((m as usize) as int == m);
        let left = pn.filter(at_rank(v, p));
        let prev = positions(m).filter(at_rank(v, p));
        if scope_rank(v[m as int].scope) == p {
            assert(left == prev.push(m as usize));
            assert(left.map_values(|i: usize| v[i as int]) =~= prev.map_values(|i: usize| v[i as int]).push(v[m as int]));
        } else {
            assert(left == prev);
        }
    }
}

proof fn lemma_filter_keeps<T>(s: Seq<T>, pred: spec_fn(T) -> bool, good: spec_fn(T) -> bool)
    requires
        forall|i: int| 0 <= i < s.len() ==> good(#[trigger] s[i]),
    ensures
        forall|k: int| 0 <= k < s.filter(pred).len() ==> good(#[trigger] s.filter(pred)[k]),
    decreases s.len(),
{
    reveal(Seq::filter);
    if s.len() > 0 {
        lemma_filter_keeps(s.drop_last(), pred, good);
        assert forall|k: int| 0 <= k < s.filter(pred).len() implies good(#[trigger] s.filter(pred)[k]) by {
            let f0 = s.drop_last().filter(pred);
            if pred(s.last()) {
                assert(s.filter(pred) == f0.push(s.last()));
                if k < f0.len() {
                    assert(s.filter(pred)[k] == f0[k]);
                } else {
                    assert(good(s[s.len() - 1]));
                }
            } else {
                assert(s.filter(pred) == f0);
            }
        }
    }
}

proof fn lemma_ages_match(v: Seq<Skill>, p: nat)
    requires
        v.len() <= usize::MAX,
    ensures
        ages_from(v, p).map_values(|i: usize| v[i as int]) == ranks_from(v, p),
    decreases 5 - p,
{
    assert(v.take(v.len() as int) =~= v);
    if p >= 5 {
        lemma_positions_filter(v, 5, v.len());
    } else {
        lemma_ages_match(v, p + 1);
        lemma_positions_filter(v, p as int, v.len());
        assert((ages_from(v, p + 1) + positions(v.len()).filter(at_rank(v, p as int))).map_values(
            |i: usize| v[i as int],
        ) =~= ages_from(v, p + 1).map_values(|i: usize| v[i as int]) + positions(v.len()).filter(
            at_rank(v, p as int),
        ).map_values(|i: usize| v[i as int]));
    }
}

/// The skill at each position of [`precedence_ages`] is the one at the same
/// position of [`by_precedence`].
pub proof fn lemma_ages_locate(v: Seq<Skill>)
    requires
        v.len() <= usize::MAX,
    ensures
        precedence_ages(v).len() == by_precedence(v).len(),
        forall|k: int| 0 <= k < by_precedence(v).len() ==> #[trigger] precedence_ages(v)[k] < v.len(),
        forall|k: int|
            0 <= k < by_precedence(v).len() ==> v[precedence_ages(v)[k] as int] == #[trigger] by_precedence(v)[k],
{
    lemma_ages_match(v, 0);
    let ages = precedence_ages(v);
    let mapped = ages.map_values(|i: usize| v[i as int]);
    assert(mapped.len() == ages.len());
    assert forall|k: int| 0 <= k < by_precedence(v).len() implies #[trigger] precedence_ages(v)[k] < v.len() by {
        lemma_ages_bound(v, 0, k);
    }
    assert forall|k: int| 0 <= k < by_precedence(v).len() implies v[precedence_ages(v)[k] as int] == #[trigger] by_precedence(v)[k] by {
        assert(mapped[k] == v[ages[k] as int]);
    }
}

proof fn lemma_positions_bound(v: Seq<Skill>, p: int, k: int)
    requires
        0 <= k < positions(v.len()).filter(at_rank(v, p)).len(),
        v.len() <= usize::MAX,
    ensures
        positions(v.len()).filter(at_rank(v, p))[k] < v.len(),
{
    let good = |i: usize| (i as int) < v.len();
    assert forall|i: int| 0 <= i < positions(v.len()).len() implies good(#[trigger] positions(v.len())[i]) by {}
    lemma_filter_keeps(positions(v.len()), at_rank(v, p), good);
    assert(good(positions(v.len()).filter(at_rank(v, p))[k]));
}

proof fn lemma_ages_bound(v: Seq<Skill>, p: nat, k: int)
    requires
        0 <= k < ages_from(v, p).len(),
        v.len() <= usize::MAX,
    ensures
        ages_from(v, p)[k] < v.len(),
    decreases 5 - p,
{
    if p >= 5 {
        lemma_positions_bound(v, 5, k);
    } else {
        let a = ages_from(v, p + 1);
        if k < a.len() {
            lemma_ages_bound(v, p + 1, k);
        } else {
            lemma_positions_bound(v, p as int, k - a.len());
        }
    }
}

/// Where each skill arrived, in the order in which collision resolution
/// takes the skills (see [`precedence_ages`]).
pub fn arrival_ages(skills: &Vec<Skill>) -> (r: Vec<usize>)
    ensures
        r@ == precedence_ages(skills@),
{
    let ghost v = skills@;
    let n = skills.len();
    let mut out: Vec<usize> = Vec::new();
    let mut p: u8 = 6;
    while p > 0
        invariant
            p <= 6,
            n == v.len(),
            v == skills@,
            p == 6 ==> out@.len() == 0,
            p < 6 ==> out@ == ages_from(v, p as nat),
        decreases p,
    {
        p = p - 1;
        let ghost out0 = out@;
        let mut i: usize = 0;
        while i < n
            invariant
                i <= n,
                n == v.len(),
                v == skills@,
                p < 6,
                out@ == out0 + positions(v.len()).take(i as int).filter(at_rank(v, p as int)),
            decreases n - i,
        {
            proof {
                lemma_filter_push(positions(v.len()), i as int, at_rank(v, p as int));
                assert(positions(v.len())[i as int] == i);
            }
            if skills[i].scope.precedence() == p {
                out.push(i);
                assert(out@ =~= out0 + positions(v.len()).take(i + 1).filter(at_rank(v, p as int)));
            }
            i += 1;
        }
        proof {
            assert(positions(v.len()).take(n as int) =~= positions(v.len()));
            if p == 5 {
                assert(out@ =~= ages_from(v, 5));
            } else {
                assert(out@ =~= ages_from(v, p as nat));
            }
        }
    }
    out
}

/// Whatever order skills of different precedence arrive in, the precedence
/// order is the same: it depends only on the skills of each precedence and
/// their order among themselves. So discovery over roots of distinct scopes
/// resolves collisions the same way whatever the order of the roots.
pub proof fn lemma_precedence_order_ignores_arrival(a: Seq<Skill>, b: Seq<Skill>)
    requires
        forall|p: int| 0 <= p <= 5 ==> #[trigger] a.filter(rank_is(p)) == b.filter(rank_is(p)),
    ensures
        by_precedence(a) == by_precedence(b),
{
    lemma_ranks_from_equal(a, b, 0);
}

/// Whether two states hold the same skills, position by position, up to
/// their warnings.
pub open spec fn alike(x: Seq<Skill>, y: Seq<Skill>) -> bool {
    &&& x.len() == y.len()
    &&& forall|i: int| 0 <= i < x.len() ==> same_but_warnings(#[trigger] x[i], y[i])
}

proof fn lemma_kept_alike(x: Seq<Skill>, y: Seq<Skill>, s: Skill)
    requires
        alike(x, y),
    ensures
        alike(kept(x, s), kept(y, s)),
    decreases x.len(),
{
    if x.len() > 0 {
        assert(alike(x.drop_last(), y.drop_last())) by {
            assert forall|i: int| 0 <= i < x.drop_last().len() implies same_but_warnings(#[trigger] x.drop_last()[i], y.drop_last()[i]) by {
                assert(same_but_warnings(x[i], y[i]));
            }
        }
        lemma_kept_alike(x.drop_last(), y.drop_last(), s);
        assert(same_but_warnings(x[x.len() - 1], y[y.len() - 1]));
        let kx = kept(x.drop_last(), s);
        let ky = kept(y.drop_last(), s);
        if !collides(x.last(), s) {
            assert forall|i: int| 0 <= i < kx.push(x.last()).len() implies same_but_warnings(#[trigger] kx.push(x.last())[i], ky.push(y.last())[i]) by {
                if i < kx.len() {
                    assert(same_but_warnings(kx[i], ky[i]));
                }
            }
        }
    }
}

proof fn lemma_absorbs_alike(
    o1: Seq<Skill>,
    o2: Seq<Skill>,
    s: Skill,
    f1: spec_fn(int) -> bool,
    f2: spec_fn(int) -> bool,
    n1: Seq<Skill>,
    n2: Seq<Skill>,
)
    requires
        alike(o1, o2),
        absorbs(o1, s, f1, n1),
        absorbs(o2, s, f2, n2),
    ensures
        alike(n1, n2),
{
    assert(outranked(o1, s) == outranked(o2, s)) by {
        if outranked(o1, s) {
            let i = choose|i: int| 0 <= i < o1.len() && collides(#[trigger] o1[i], s) && scope_rank(s.scope) < scope_rank(o1[i].scope);
            assert(same_but_warnings(o1[i], o2[i]));
            assert(collides(o2[i], s));
        }
        if outranked(o2, s) {
            let i = choose|i: int| 0 <= i < o2.len() && collides(#[trigger] o2[i], s) && scope_rank(s.scope) < scope_rank(o2[i].scope);
            assert(same_but_warnings(o1[i], o2[i]));
            assert(collides(o1[i], s));
        }
    }
    if outranked(o1, s) {
        let h1 = choose|h: int|
            {
                &&& champion(o1, s, h)
                &&& n1.len() == o1.len()
                &&& forall|i: int| 0 <= i < o1.len() && i != h ==> n1[i] == o1[i]
                &&& same_but_warnings(#[trigger] n1[h], o1[h])
                &&& views(n1[h].warnings@) == views(o1[h].warnings@).push(outranked_note(s, f1(h)))
            };
        let h2 = choose|h: int|
            {
                &&& champion(o2, s, h)
                &&& n2.len() == o2.len()
                &&& forall|i: int| 0 <= i < o2.len() && i != h ==> n2[i] == o2[i]
                &&& same_but_warnings(#[trigger] n2[h], o2[h])
                &&& views(n2[h].warnings@) == views(o2[h].warnings@).push(outranked_note(s, f2(h)))
            };
        assert forall|i: int| 0 <= i < n1.len() implies same_but_warnings(#[trigger] n1[i], n2[i]) by {
            assert(same_but_warnings(o1[i], o2[i]));
        }
    } else {
        lemma_kept_alike(o1, o2, s);
        assert forall|i: int| 0 <= i < n1.len() implies same_but_warnings(#[trigger] n1[i], n2[i]) by {
            if i < n1.len() - 1 {
                assert(n1[i] == n1.drop_last()[i]);
                assert(n2[i] == n2.drop_last()[i]);
                assert(same_but_warnings(kept(o1, s)[i], kept(o2, s)[i]));
            }
        }
    }
}

proof fn lemma_traces_alike(
    input: Seq<Skill>,
    arr1: Seq<usize>,
    t1: Seq<Seq<Skill>>,
    a1: Seq<Seq<usize>>,
    arr2: Seq<usize>,
    t2: Seq<Seq<Skill>>,
    a2: Seq<Seq<usize>>,
    i: int,
)
    requires
        absorb_trace(input, arr1, t1, a1),
        absorb_trace(input, arr2, t2, a2),
        0 <= i <= input.len(),
    ensures
        alike(t1[i], t2[i]),
    decreases i,
{
    if i > 0 {
        lemma_traces_alike(input, arr1, t1, a1, arr2, t2, a2, i - 1);
        let j = i - 1;
        assert(absorbs(t1[j], input[j], arrived_ahead(a1[j], arr1[j]), t1[j + 1]));
        assert(absorbs(t2[j], input[j], arrived_ahead(a2[j], arr2[j]), t2[j + 1]));
        lemma_absorbs_alike(t1[j], t2[j], input[j], arrived_ahead(a1[j], arr1[j]), arrived_ahead(a2[j], arr2[j]), t1[j + 1], t2[j + 1]);
    }
}

/// The skills that survive collision resolution do not depend on the order
/// in which skills of different precedence arrive: for two inputs with the
/// same skills of each precedence, in the same order among themselves, any
/// two resolutions keep the same skills in the same positions, whatever
/// their arrival positions; only the warnings, which follow arrival order,
/// may differ.
pub proof fn lemma_survivors_ignore_arrival(
    a: Seq<Skill>,
    b: Seq<Skill>,
    arr_a: Seq<usize>,
    trace_a: Seq<Seq<Skill>>,
    ages_a: Seq<Seq<usize>>,
    arr_b: Seq<usize>,
    trace_b: Seq<Seq<Skill>>,
    ages_b: Seq<Seq<usize>>,
)
    requires
        forall|p: int| 0 <= p <= 5 ==> #[trigger] a.filter(rank_is(p)) == b.filter(rank_is(p)),
        absorb_trace(by_precedence(a), arr_a, trace_a, ages_a),
        absorb_trace(by_precedence(b), arr_b, trace_b, ages_b),
    ensures
        alike(trace_a.last(), trace_b.last()),
{
    lemma_precedence_order_ignores_arrival(a, b);
    let input = by_precedence(a);
    lemma_traces_alike(input, arr_a, trace_a, ages_a, arr_b, trace_b, ages_b, input.len() as int);
}

proof fn lemma_ranks_from_equal(a: Seq<Skill>, b: Seq<Skill>, p: nat)
    requires
        forall|q: int| 0 <= q <= 5 ==> #[trigger] a.filter(rank_is(q)) == b.filter(rank_is(q)),
    ensures
        ranks_from(a, p) == ranks_from(b, p),
    decreases 5 - p,
{
    if p >= 5 {
        assert(a.filter(rank_is(5)) == b.filter(rank_is(5)));
    } else {
        lemma_ranks_from_equal(a, b, p + 1);
        assert(a.filter(rank_is(p as int)) == b.filter(rank_is(p as int)));
    }
}

/// Resolve name and directory-id collisions in a sequence of skills.
///
/// Skills are taken by descending precedence, those of equal precedence in
/// the order given (see [`by_precedence`] and [`absorbs`]), so which skills
/// survive does not depend on the order in which skills of different
/// precedence arrive (see [`lemma_survivors_ignore_arrival`]). The warnings
/// follow arrival order: a kept skill records a lower-precedence skill that
/// arrived before it as shadowed and one that arrived after it as ignored.
/// The survivors are returned sorted by display name.
pub fn resolve_collisions(skills: Vec<Skill>) -> (r: Vec<Skill>)
    ensures
        exists|trace: Seq<Seq<Skill>>, ages: Seq<Seq<usize>>|
            absorb_trace(by_precedence(skills@), precedence_ages(skills@), trace, ages)
                && #[trigger] r@.to_multiset() == trace.last().to_multiset(),
        sorted_by(r@, false),
        collision_free(r@),
        forall|x: Skill| has_like(r@, x) ==> has_like(by_precedence(skills@), x),
        forall|k: int|
            0 <= k < by_precedence(skills@).len() && dominates(by_precedence(skills@), k)
                ==> has_like(r@, #[trigger] by_precedence(skills@)[k]),
{
    let arrivals = arrival_ages(&skills);
    assert(skills@.len() == skills.len());
    proof {
        lemma_ages_locate(skills@);
    }
    let skills = order_by_precedence(skills);
    let ghost input = skills@;
    let n = skills.len();
    let mut rest = skills;
    let mut state: Vec<Skill> = Vec::new();
    let mut state_ages: Vec<usize> = Vec::new();
    let ghost mut ages: Seq<Seq<usize>> = seq![state_ages@];
    let ghost mut trace: Seq<Seq<Skill>> = seq![state@];
    let mut i: usize = 0;
    while i < n
        invariant
            n == input.len(),
            i <= n,
            rest@ == input.skip(i as int),
            arrivals@.len() == n,
            trace.len() == i + 1,
            ages.len() == i + 1,
            trace[0].len() == 0,
            ages[0].len() == 0,
            forall|j: int|
                0 <= j < i ==> absorbs(
                    trace[j],
                    input[j],
                    arrived_ahead(ages[j], arrivals@[j]),
                    #[trigger] trace[j + 1],
                ) && ages[j + 1] == ages_after(trace[j], ages[j], input[j], arrivals@[j]),
            trace.last() == state@,
            ages.last() == state_ages@,
            state_ages@.len() == state@.len(),
            collision_free(state@),
            forall|x: Skill| has_like(state@, x) ==> has_like(input.take(i as int), x),
            forall|k: int| 0 <= k < i && dominates(input, k) ==> has_like(state@, #[trigger] input[k]),
        decreases n - i,
    {
        let s = rest.remove(0);
        assert(s == input[i as int]);
        assert(rest@ =~= input.skip(i + 1));
        let ghost old_state = state@;
        let ghost old_ages = state_ages@;
        absorb(&mut state, &mut state_ages, s, arrivals[i]);
        proof {
            let ahead = arrived_ahead(old_ages, arrivals@[i as int]);
            lemma_absorbs_free(old_state, s, ahead, state@);
            trace = trace.push(state@);
            ages = ages.push(state_ages@);
            assert forall|x: Skill| has_like(state@, x) implies has_like(input.take(i + 1), x) by {
                lemma_absorbs_origin(old_state, s, ahead, state@, x);
                if has_like(old_state, x) {
                    let j = choose|j: int| 0 <= j < input.take(i as int).len() && same_but_warnings(#[trigger] input.take(i as int)[j], x);
                    assert(input.take(i + 1)[j] == input.take(i as int)[j]);
                } else {
                    assert(input.take(i + 1)[i as int] == s);
                }
            }
            assert forall|k: int| 0 <= k < i + 1 && dominates(input, k) implies has_like(state@, #[trigger] input[k]) by {
                if k < i {
                    assert(collides(s, input[k]) ==> scope_rank(s.scope) < scope_rank(input[k].scope)) by {
                        if collides(s, input[k]) {
                            assert(collides(input[i as int], input[k]));
                        }
                    }
                    lemma_absorbs_keeps(old_state, s, ahead, state@, input[k]);
                } else {
                    assert forall|a: int| 0 <= a < old_state.len() && collides(#[trigger] old_state[a], s) implies scope_rank(old_state[a].scope) < scope_rank(s.scope) by {
                        assert(has_like(old_state, old_state[a]));
                        let j = choose|j: int| 0 <= j < input.take(i as int).len() && same_but_warnings(#[trigger] input.take(i as int)[j], old_state[a]);
                        assert(input[j] == input.take(i as int)[j]);
                        assert(collides(input[j], input[k]));
                    }
                    lemma_absorbs_adds(old_state, s, ahead, state@);
                }
            }
        }
        i += 1;
    }
    assert(input.take(n as int) == input);
    let r = sort_skills(state, false);
    proof {
        assert(absorb_trace(input, arrivals@, trace, ages));
        lemma_sorted_free(state@, r@);
        assert forall|x: Skill| has_like(r@, x) implies has_like(input, x) by {
            lemma_like_multiset(r@, state@, x);
        }
        assert forall|k: int| 0 <= k < input.len() && dominates(input, k) implies has_like(r@, #[trigger] input[k]) by {
            lemma_like_multiset(state@, r@, input[k]);
        }
    }
    r
}

proof fn lemma_like_multiset(a: Seq<Skill>, b: Seq<Skill>, x: Skill)
    requires
        a.to_multiset() == b.to_multiset(),
        has_like(a, x),
    ensures
        has_like(b, x),
{
    broadcast use vstd::seq_lib::group_seq_properties;
    broadcast use vstd::multiset::group_multiset_axioms;
    let k = choose|k: int| 0 <= k < a.len() && same_but_warnings(#[trigger] a[k], x);
    a.to_multiset_ensures();
    b.to_multiset_ensures();
    assert(a.contains(a[k]));
    assert(a.to_multiset().count(a[k]) > 0);
    assert(b.to_multiset().count(a[k]) > 0);
    assert(b.contains(a[k]));
    let m = choose|m: int| 0 <= m < b.len() && b[m] == a[k];
    assert(same_but_warnings(b[m], x));
}

proof fn lemma_sorted_free(a: Seq<Skill>, b: Seq<Skill>)
    requires
        a.to_multiset() == b.to_multiset(),
        collision_free(a),
    ensures
        collision_free(b),
{
    broadcast use vstd::seq_lib::group_seq_properties;
    broadcast use vstd::multiset::group_multiset_axioms;
    a.to_multiset_ensures();
    b.to_multiset_ensures();
    assert forall|i: int, j: int| 0 <= i < b.len() && 0 <= j < b.len() && i != j implies !collides(#[trigger] b[i], #[trigger] b[j]) by {
        if collides(b[i], b[j]) {
            assert(b.contains(b[i]));
            assert(b.contains(b[j]));
            assert(b.to_multiset().count(b[i]) > 0);
            assert(b.to_multiset().count(b[j]) > 0);
            assert(a.contains(b[i]));
            assert(a.contains(b[j]));
            let p = choose|p: int| 0 <= p < a.len() && a[p] == b[i];
            let q = choose|q: int| 0 <= q < a.len() && a[q] == b[j];
            if p == q {
                // the same value twice in b, so twice in a
                lemma_count_two(b, i, j);
                lemma_count_one(a, p);
            }
        }
    }
}

proof fn lemma_count_two(v: Seq<Skill>, i: int, j: int)
    requires
        0 <= i < v.len(),
        0 <= j < v.len(),
        i != j,
        v[i] == v[j],
    ensures
        v.to_multiset().count(v[i]) >= 2,
{
    broadcast use vstd::seq_lib::group_seq_properties;
    broadcast use vstd::multiset::group_multiset_axioms;
    let lo = if i < j { i } else { j };
    let hi = if i < j { j } else { i };
    let x = v[i];
    let p1 = v.subrange(0, lo + 1);
    let p2 = v.subrange(lo + 1, v.len() as int);
    assert(v == p1 + p2);
    vstd::seq_lib::lemma_multiset_commutative(p1, p2);
    p1.to_multiset_ensures();
    p2.to_multiset_ensures();
    assert(p1.contains(x)) by { assert(p1[lo] == x); }
    assert(p2.contains(x)) by { assert(p2[hi - lo - 1] == x); }
}

proof fn lemma_count_one(v: Seq<Skill>, p: int)
    requires
        0 <= p < v.len(),
        collision_free(v),
    ensures
        v.to_multiset().count(v[p]) == 1,
    decreases v.len(),
{
    broadcast use vstd::seq_lib::group_seq_properties;
    broadcast use vstd::multiset::group_multiset_axioms;
    let x = v[p];
    let prev = v.drop_last();
    v.to_multiset_ensures();
    prev.to_multiset_ensures();
    assert(v == prev.push(v.last()));
    assert(collision_free(prev)) by {
        assert forall|i: int, j: int| 0 <= i < prev.len() && 0 <= j < prev.len() && i != j implies !collides(#[trigger] prev[i], #[trigger] prev[j]) by {
            assert(prev[i] == v[i] && prev[j] == v[j]);
        }
    }
    if p < v.len() - 1 {
        assert(prev[p] == x);
        lemma_count_one(prev, p);
        assert(v.last() != x) by {
            assert(!collides(v[p], v[v.len() - 1]));
        }
    } else {
        assert(!prev.contains(x)) by {
            if prev.contains(x) {
                let q = choose|q: int| 0 <= q < prev.len() && prev[q] == x;
                assert(!collides(v[q], v[p]));
            }
        }
    }
}


/// Directory names that discovery never descends into.
pub open spec fn excluded_dirs() -> Seq<Seq<char>> {
    seq![
        ".git"@,
        ".github"@,
        ".hub"@,
        ".archive"@,
        ".venv"@,
        "venv"@,
        "node_modules"@,
        "site-packages"@,
        "__pycache__"@,
        ".tox"@,
        ".nox"@,
        ".pytest_cache"@,
        ".mypy_cache"@,
        ".ruff_cache"@,
    ]
}

/// Whether discovery descends into a directory of this name: hidden and
/// excluded directories are skipped.
pub open spec fn scannable(name: Seq<char>) -> bool {
    !(name.len() > 0 && name[0] == '.') && !excluded_dirs().contains(name)
}

/// Whether discovery descends into a directory named `name`.
pub fn is_scannable_dir_name(name: &str) -> (r: bool)
    ensures
        r == scannable(name@),
{
    let chars = chars_of(name);
    if chars.len() > 0 && chars[0] == '.' {
        return false;
    }
    let excluded: [&str; 14] = [
        ".git",
        ".github",
        ".hub",
        ".archive",
        ".venv",
        "venv",
        "node_modules",
        "site-packages",
        "__pycache__",
        ".tox",
        ".nox",
        ".pytest_cache",
        ".mypy_cache",
        ".ruff_cache",
    ];
    assert(excluded@.map_values(|e: &str| e@) =~= excluded_dirs());
    let mut i: usize = 0;
    while i < 14
        invariant
            i <= 14,
            excluded@.map_values(|e: &str| e@) == excluded_dirs(),
            forall|k: int| 0 <= k < i ==> excluded_dirs()[k] != name@,
        decreases 14 - i,
    {
        assert(excluded_dirs()[i as int] == excluded@[i as int]@);
        if str_equal(excluded[i], name) {
            assert(excluded_dirs()[i as int] == name@);
            return false;
        }
        i += 1;
    }
    true
}

/// Whether a scan looks into a directory entry: a real (non-symlink)
/// directory whose name is scannable.
pub fn scans_entry(is_symlink: bool, is_dir: bool, name: &str) -> (r: bool)
    ensures
        r == (!is_symlink && is_dir && scannable(name@)),
{
    !is_symlink && is_dir && is_scannable_dir_name(name)
}

/// Which manifest a bundle directory is loaded from.
#[derive(Debug, Clone, Copy, PartialEq, Eq, Structural)]
pub enum ManifestKind {
    /// `WORKFLOW.md`.
    Workflow,
    /// `SKILL.md`.
    Skill,
    /// Legacy `skill.json`.
    Legacy,
}

/// Choose the manifest of a bundle directory from which of `WORKFLOW.md`,
/// `SKILL.md` and `skill.json` are regular, non-symlink files; the first one
/// present wins, and without any the directory is not a bundle.
pub fn choose_manifest(workflow: bool, skill: bool, legacy: bool) -> (r: Option<ManifestKind>)
    ensures
        r == (if workflow {
            Some(ManifestKind::Workflow)
        } else if skill {
            Some(ManifestKind::Skill)
        } else if legacy {
            Some(ManifestKind::Legacy)
        } else {
            None
        }),
{
    if workflow {
        Some(ManifestKind::Workflow)
    } else if skill {
        Some(ManifestKind::Skill)
    } else if legacy {
        Some(ManifestKind::Legacy)
    } else {
        None
    }
}

/// Sort the skills found under one root by directory id.
pub fn sort_by_dir_name(skills: Vec<Skill>) -> (r: Vec<Skill>)
    ensures
        sorted_by(r@, true),
        r@.to_multiset() == skills@.to_multiset(),
        keeps_order(r@, skills@, true),
{
    sort_skills(skills, true)
}

} // verus!
