//! What a status line says about the active jobs: how many run in each
//! phase, when the earliest started, and which icon a single phase gets.
use vstd::prelude::*;
use crate::text::{chars_of, same_chars, string_of, string_views};

verus! {

/// How many times `p` occurs in `s`.
pub open spec fn count_of(s: Seq<Seq<char>>, p: Seq<char>) -> nat
    decreases s.len(),
{
    if s.len() == 0 {
        0
    } else {
        count_of(s.drop_last(), p) + if s.last() == p { 1nat } else { 0nat }
    }
}

/// The phases that have an icon of their own.
pub open spec fn has_icon(phase: Seq<char>) -> bool {
    phase == seq!['u', 'n', 'p', 'a', 'c', 'k'] || phase == seq!['p', 'r', 'e', 'p', 'a', 'r', 'e']
        || phase == seq!['c', 'o', 'n', 'f', 'i', 'g', 'u', 'r', 'e'] || phase == seq![
        'c',
        'o',
        'm',
        'p',
        'i',
        'l',
        'e',
    ] || phase == seq!['i', 'n', 's', 't', 'a', 'l', 'l']
}

/// The icon prefix `phase_`.
pub open spec fn icon_prefix() -> Seq<char> {
    seq!['p', 'h', 'a', 's', 'e', '_']
}

/// The name of the icon for `phase`: `phase_<phase>` for the phases that
/// have one.
pub fn phase_icon(phase: &String) -> (r: Option<String>)
    ensures
        match r {
            Some(icon) => has_icon(phase@) && icon@ == icon_prefix() + phase@,
            None => !has_icon(phase@),
        },
{
    let p = chars_of(phase);
    let unpack = vec!['u', 'n', 'p', 'a', 'c', 'k'];
    let prepare = vec!['p', 'r', 'e', 'p', 'a', 'r', 'e'];
    let configure = vec!['c', 'o', 'n', 'f', 'i', 'g', 'u', 'r', 'e'];
    let compile = vec!['c', 'o', 'm', 'p', 'i', 'l', 'e'];
    let install = vec!['i', 'n', 's', 't', 'a', 'l', 'l'];
    assert(unpack@ =~= seq!['u', 'n', 'p', 'a', 'c', 'k']);
    assert(prepare@ =~= seq!['p', 'r', 'e', 'p', 'a', 'r', 'e']);
    assert(configure@ =~= seq!['c', 'o', 'n', 'f', 'i', 'g', 'u', 'r', 'e']);
    assert(compile@ =~= seq!['c', 'o', 'm', 'p', 'i', 'l', 'e']);
    assert(install@ =~= seq!['i', 'n', 's', 't', 'a', 'l', 'l']);
    let known = same_chars(p.as_slice(), unpack.as_slice()) || same_chars(p.as_slice(), prepare.as_slice())
        || same_chars(p.as_slice(), configure.as_slice()) || same_chars(p.as_slice(), compile.as_slice())
        || same_chars(p.as_slice(), install.as_slice());
    if !known {
        return None;
    }
    let mut icon = vec!['p', 'h', 'a', 's', 'e', '_'];
    let ghost pre = icon@;
    let mut rest = p;
    icon.append(&mut rest);
    assert(pre =~= icon_prefix());
    Some(string_of(icon.as_slice()))
}

/// The earliest of the given times; none where there are none.
pub fn earliest_start(times: &Vec<u64>) -> (r: Option<u64>)
    ensures
        match r {
            Some(t) => (exists|i: int| 0 <= i < times@.len() && times@[i] == t)
                && forall|i: int| 0 <= i < times@.len() ==> t <= times@[i],
            None => times@.len() == 0,
        },
{
    if times.len() == 0 {
        return None;
    }
    let mut best = times[0];
    let mut i: usize = 1;
    while i < times.len()
        invariant
            1 <= i <= times@.len(),
            exists|k: int| 0 <= k < i && times@[k] == best,
            forall|k: int| 0 <= k < i ==> best <= times@[k],
        decreases times.len() - i,
    {
        if times[i] < best {
            best = times[i];
        }
        i = i + 1;
    }
    Some(best)
}

/// The first position of `s` among `names`, if any.
fn position_of(names: &Vec<String>, s: &String) -> (r: Option<usize>)
    ensures
        match r {
            Some(i) => i < names@.len() && names@[i as int]@ == s@,
            None => forall|j: int| 0 <= j < names@.len() ==> names@[j]@ != s@,
        },
{
    let mut i: usize = 0;
    while i < names.len()
        invariant
            i <= names@.len(),
            forall|j: int| 0 <= j < i ==> names@[j]@ != s@,
        decreases names.len() - i,
    {
        if names[i] == *s {
            return Some(i);
        }
        i = i + 1;
    }
    None
}

proof fn lemma_count_pos(s: Seq<Seq<char>>, p: Seq<char>)
    ensures
        count_of(s, p) > 0 ==> exists|x: int| 0 <= x < s.len() && s[x] == p,
    decreases s.len(),
{
    if s.len() > 0 {
        lemma_count_pos(s.drop_last(), p);
        if count_of(s.drop_last(), p) > 0 {
            let x = choose|x: int| 0 <= x < s.drop_last().len() && s.drop_last()[x] == p;
            assert(s[x] == p);
        }
    }
}

/// How many times each distinct phase occurs, in order of first occurrence.
pub fn count_phases(phases: &Vec<String>) -> (r: Vec<(String, usize)>)
    ensures
        forall|i: int| 0 <= i < r@.len() ==> r@[i].1 == count_of(string_views(phases@), #[trigger] r@[i].0@) && r@[i].1 > 0,
        forall|i: int, j: int| 0 <= i < j < r@.len() ==> r@[i].0@ != r@[j].0@,
        forall|k: int| 0 <= k < phases@.len() ==> exists|i: int| 0 <= i < r@.len() && #[trigger] r@[i].0@ == #[trigger] phases@[k]@,
{
    let ghost sv = string_views(phases@);
    let mut names: Vec<String> = Vec::new();
    let mut counts: Vec<usize> = Vec::new();
    let mut k: usize = 0;
    while k < phases.len()
        invariant
            k <= phases@.len(),
            sv == string_views(phases@),
            names@.len() == counts@.len(),
            forall|i: int| 0 <= i < names@.len() ==> counts@[i] == count_of(sv.take(k as int), #[trigger] names@[i]@) && counts@[i] > 0,
            forall|i: int| 0 <= i < names@.len() ==> #[trigger] counts@[i] <= k,
            forall|i: int, j: int| 0 <= i < j < names@.len() ==> names@[i]@ != names@[j]@,
            forall|x: int| 0 <= x < k ==> exists|i: int| 0 <= i < names@.len() && #[trigger] names@[i]@ == #[trigger] sv[x],
        decreases phases.len() - k,
    {
        let ghost t1 = sv.take(k + 1);
        let ghost ph = phases@[k as int]@;
        assert(t1.drop_last() =~= sv.take(k as int));
        assert(t1.last() == ph);
        assert forall|p: Seq<char>| #[trigger] count_of(t1, p) == count_of(sv.take(k as int), p) + if p == ph { 1nat } else { 0nat } by {}
        let pos = position_of(&names, &phases[k]);
        let ghost old_names = names@;
        let ghost old_counts = counts@;
        if let Some(i) = pos {
            assert(names@[i as int]@ == ph);
            counts.set(i, counts[i] + 1);
            assert forall|j: int| 0 <= j < names@.len() implies counts@[j] == count_of(t1, #[trigger] names@[j]@) && counts@[j] > 0 by {
                if j != i {
                    assert(names@[j]@ != ph);
                }
            }
            assert forall|x: int| 0 <= x < k + 1 implies exists|j: int| 0 <= j < names@.len() && #[trigger] names@[j]@ == #[trigger] sv[x] by {
                if x == k {
                    assert(names@[i as int]@ == sv[x]);
                }
            }
        } else {
            proof {
                lemma_count_pos(sv.take(k as int), ph);
                if count_of(sv.take(k as int), ph) > 0 {
                    let x = choose|x: int| 0 <= x < k && sv.take(k as int)[x] == ph;
                    assert(sv[x] == ph);
                }
            }
            names.push(phases[k].clone());
            counts.push(1);
            assert forall|j: int| 0 <= j < names@.len() implies counts@[j] == count_of(t1, #[trigger] names@[j]@) && counts@[j] > 0 by {
                if j < old_names.len() {
                    assert(names@[j] == old_names[j]);
                    assert(old_names[j]@ != ph);
                }
            }
            assert(names@[old_names.len() as int]@ == ph);
            assert forall|x: int| 0 <= x < k + 1 implies exists|j: int| 0 <= j < names@.len() && #[trigger] names@[j]@ == #[trigger] sv[x] by {
                if x == k {
                    assert(names@[old_names.len() as int]@ == sv[x]);
                } else {
                    let j = choose|j: int| 0 <= j < old_names.len() && #[trigger] old_names[j]@ == sv[x];
                    assert(names@[j]@ == sv[x]);
                }
            }
        }
        k = k + 1;
    }
    assert(sv.take(phases@.len() as int) =~= sv);
    let mut r: Vec<(String, usize)> = Vec::new();
    let mut i: usize = 0;
    while i < names.len()
        invariant
            i <= names@.len(),
            names@.len() == counts@.len(),
            r@.len() == i,
            forall|j: int| 0 <= j < i ==> #[trigger] r@[j].0@ == names@[j]@ && r@[j].1 == counts@[j],
        decreases names.len() - i,
    {
        r.push((names[i].clone(), counts[i]));
        i = i + 1;
    }
    assert forall|x: int| 0 <= x < phases@.len() implies exists|j: int| 0 <= j < r@.len() && #[trigger] r@[j].0@ == #[trigger] phases@[x]@ by {
        assert(sv[x] == phases@[x]@);
        let j = choose|j: int| 0 <= j < names@.len() && #[trigger] names@[j]@ == #[trigger] sv[x];
        assert(r@[j].0@ == names@[j]@);
    }
    r
}

} // verus!
