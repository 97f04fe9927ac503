//! The units of the acoustic alignment of a lyric line: every mora of known
//! reading exactly once, and a duration prior for each token that no mora
//! covers, in text order.

use vstd::prelude::*;
use crate::lyrics::{spec_token_weight_tenths, token_weight_tenths, tokens_view, SpannedToken};

verus! {

/// A unit of the alignment of a line: a mora of known reading (`known`,
/// `mora_idx`), or a token without one that takes a duration prior.
/// `token_idx` is the display token the unit belongs to (`usize::MAX` for a
/// mora that overlaps no token).
#[derive(Debug, Clone, Copy)]
pub struct AlignUnit {
    pub sort_char: usize,
    pub token_idx: usize,
    pub weight_tenths: u128,
    pub known: bool,
    pub mora_idx: Option<usize>,
}

/// The model of an alignment unit: (sort char, token, weight in tenths,
/// known, mora index).
pub type UnitModel = (int, int, int, bool, Option<int>);

impl View for AlignUnit {
    type V = UnitModel;

    open spec fn view(&self) -> UnitModel {
        (
            self.sort_char as int,
            self.token_idx as int,
            self.weight_tenths as int,
            self.known,
            match self.mora_idx {
                Some(m) => Some(m as int),
                None => None,
            },
        )
    }
}

/// The models of a list of units.
pub open spec fn units_view(v: Seq<AlignUnit>) -> Seq<UnitModel> {
    v.map_values(|u: AlignUnit| u@)
}

/// The first token from `i` on that overlaps the chars `a..b`
/// (`toks.len()` if none does).
pub open spec fn first_overlap_from(toks: Seq<(Seq<char>, int, int)>, a: int, b: int, i: int) -> int
    decreases toks.len() - i,
{
    if i < 0 || i >= toks.len() || (a < toks[i].2 && toks[i].1 < b) {
        i
    } else {
        first_overlap_from(toks, a, b, i + 1)
    }
}

/// The token of mora `m` (a char range): the first token it overlaps.
pub open spec fn mora_token(toks: Seq<(Seq<char>, int, int)>, m: (int, int)) -> int {
    first_overlap_from(toks, m.0, m.1, 0)
}

/// The unit of mora `mi`.
pub open spec fn mora_unit(toks: Seq<(Seq<char>, int, int)>, moras: Seq<(int, int)>, mi: int) -> UnitModel {
    let t = mora_token(toks, moras[mi]);
    (moras[mi].0, if t < toks.len() {
        t
    } else {
        usize::MAX as int
    }, 10, true, Some(mi))
}

/// Whether some mora belongs to token `ti`.
pub open spec fn token_covered(toks: Seq<(Seq<char>, int, int)>, moras: Seq<(int, int)>, ti: int) -> bool {
    exists|mi: int| 0 <= mi < moras.len() && #[trigger] mora_token(toks, moras[mi]) == ti
}

/// The prior units of the tokens `0..k` that no mora covers.
pub open spec fn token_units(toks: Seq<(Seq<char>, int, int)>, moras: Seq<(int, int)>, k: int) -> Seq<
    UnitModel,
>
    decreases k,
{
    if k <= 0 || k > toks.len() {
        Seq::empty()
    } else {
        let prev = token_units(toks, moras, k - 1);
        if token_covered(toks, moras, k - 1) {
            prev
        } else {
            prev.push(
                (
                    toks[k - 1].1,
                    k - 1,
                    spec_token_weight_tenths(toks[k - 1].0) as int,
                    false,
                    None::<int>,
                ),
            )
        }
    }
}

/// The units before sorting: one per mora, in mora order, then the priors.
pub open spec fn unsorted_units(toks: Seq<(Seq<char>, int, int)>, moras: Seq<(int, int)>) -> Seq<
    UnitModel,
> {
    Seq::new(moras.len(), |mi: int| mora_unit(toks, moras, mi)) + token_units(
        toks,
        moras,
        toks.len() as int,
    )
}

/// The order of units: by sort char, then by mora index (priors last).
pub open spec fn unit_key2(u: UnitModel) -> int {
    match u.4 {
        Some(m) => m,
        None => usize::MAX as int,
    }
}

/// `u` comes after `v` in the order of units.
pub open spec fn unit_after(u: UnitModel, v: UnitModel) -> bool {
    u.0 > v.0 || (u.0 == v.0 && unit_key2(u) > unit_key2(v))
}

/// The first index from `i` on whose unit comes after `x`.
pub open spec fn first_after_from(s: Seq<UnitModel>, x: UnitModel, i: int) -> int
    decreases s.len() - i,
{
    if i < 0 || i >= s.len() || unit_after(s[i], x) {
        i
    } else {
        first_after_from(s, x, i + 1)
    }
}

/// The units sorted by text order; units of the same key keep their order.
pub open spec fn sorted_units(s: Seq<UnitModel>) -> Seq<UnitModel>
    decreases s.len(),
{
    if s.len() == 0 {
        Seq::empty()
    } else {
        let r = sorted_units(s.drop_last());
        r.insert(first_after_from(r, s.last(), 0), s.last())
    }
}

/// The alignment units of a line with display tokens `toks` and moras of
/// char ranges `moras`.
pub open spec fn spec_align_units(toks: Seq<(Seq<char>, int, int)>, moras: Seq<(int, int)>) -> Seq<
    UnitModel,
> {
    sorted_units(unsorted_units(toks, moras))
}

/// The model of a list of char ranges.
pub open spec fn ranges_view(v: Seq<(usize, usize)>) -> Seq<(int, int)> {
    v.map_values(|r: (usize, usize)| (r.0 as int, r.1 as int))
}

fn first_overlap(tokens: &[SpannedToken], a: usize, b: usize) -> (r: usize)
    ensures
        r == first_overlap_from(tokens_view(tokens@), a as int, b as int, 0),
{
    let ghost toks = tokens_view(tokens@);
    let mut i: usize = 0;
    while i < tokens.len()
        invariant
            i <= tokens@.len(),
            toks == tokens_view(tokens@),
            first_overlap_from(toks, a as int, b as int, i as int) == first_overlap_from(
                toks,
                a as int,
                b as int,
                0,
            ),
        decreases tokens.len() - i,
    {
        assert(toks[i as int] == tokens@[i as int]@);
        if a < tokens[i].char_end && tokens[i].char_start < b {
            return i;
        }
        i += 1;
    }
    i
}

/// The alignment units of a line: one unit per mora (of char range
/// `moras[mi]`), belonging to the first display token it overlaps; one
/// prior unit, weighted by the token's estimated length, per token that no
/// mora belongs to; all in text order (by first char, then by mora index,
/// priors after moras).
pub fn build_align_units(tokens: &[SpannedToken], moras: &[(usize, usize)]) -> (units: Vec<AlignUnit>)
    ensures
        units_view(units@) == spec_align_units(tokens_view(tokens@), ranges_view(moras@)),
{
    let ghost toks = tokens_view(tokens@);
    let ghost ms = ranges_view(moras@);
    let ghost all = unsorted_units(toks, ms);
    let mut covered: Vec<bool> = Vec::new();
    let mut t: usize = 0;
    while t < tokens.len()
        invariant
            t <= tokens@.len(),
            covered@.len() == t,
            forall|k: int| 0 <= k < t ==> !(#[trigger] covered@[k]),
        decreases tokens.len() - t,
    {
        covered.push(false);
        t += 1;
    }
    let mut units: Vec<AlignUnit> = Vec::new();
    let mut mi: usize = 0;
    while mi < moras.len()
        invariant
            mi <= moras@.len(),
            toks == tokens_view(tokens@),
            ms == ranges_view(moras@),
            all == unsorted_units(toks, ms),
            covered@.len() == tokens@.len(),
            forall|k: int|
                0 <= k < covered@.len() ==> (#[trigger] covered@[k] <==> exists|j: int|
                    0 <= j < mi && #[trigger] mora_token(toks, ms[j]) == k),
            units_view(units@) == all.take(mi as int),
        decreases moras.len() - mi,
    {
        let (a, b) = moras[mi];
        assert(ms[mi as int] == (a as int, b as int));
        let ti = first_overlap(tokens, a, b);
        let ghost before = units_view(units@);
        if ti < tokens.len() {
            covered.set(ti, true);
        }
        let u = AlignUnit {
            sort_char: a,
            token_idx: if ti < tokens.len() {
                ti
            } else {
                usize::MAX
            },
            weight_tenths: 10,
            known: true,
            mora_idx: Some(mi),
        };
        units.push(u);
        proof {
            assert(all[mi as int] == mora_unit(toks, ms, mi as int));
            assert(u@ == mora_unit(toks, ms, mi as int));
            assert(units_view(units@) =~= before.push(u@));
            assert(all.take(mi + 1) =~= all.take(mi as int).push(all[mi as int]));
            assert(units_view(units@) =~= all.take(mi + 1));
            assert forall|k: int| 0 <= k < covered@.len() implies (#[trigger] covered@[k] <==> exists|j: int|
                0 <= j < mi + 1 && #[trigger] mora_token(toks, ms[j]) == k) by {
                if covered@[k] && k != ti {
                    let j = choose|j: int| 0 <= j < mi && #[trigger] mora_token(toks, ms[j]) == k;
                    assert(0 <= j < mi + 1 && mora_token(toks, ms[j]) == k);
                }
                if exists|j: int| 0 <= j < mi + 1 && #[trigger] mora_token(toks, ms[j]) == k {
                    let j = choose|j: int| 0 <= j < mi + 1 && #[trigger] mora_token(toks, ms[j]) == k;
                    if j < mi {
                        assert(exists|j2: int| 0 <= j2 < mi && #[trigger] mora_token(toks, ms[j2]) == k);
                    }
                }
            }
        }
        mi += 1;
    }
    let nm = moras.len();
    let mut ti: usize = 0;
    while ti < tokens.len()
        invariant
            nm == moras@.len(),
            ti <= tokens@.len(),
            toks == tokens_view(tokens@),
            ms == ranges_view(moras@),
            all == unsorted_units(toks, ms),
            covered@.len() == tokens@.len(),
            forall|k: int|
                0 <= k < covered@.len() ==> (#[trigger] covered@[k] <==> token_covered(toks, ms, k)),
            units_view(units@) == all.take(nm as int) + token_units(toks, ms, ti as int),
        decreases tokens.len() - ti,
    {
        assert(toks[ti as int] == tokens@[ti as int]@);
        let ghost before = units_view(units@);
        if !covered[ti] {
            let w = token_weight_tenths(tokens[ti].text.as_str());
            units.push(
                AlignUnit {
                    sort_char: tokens[ti].char_start,
                    token_idx: ti,
                    weight_tenths: w,
                    known: false,
                    mora_idx: None,
                },
            );
            proof {
                assert(units_view(units@) =~= before.push(units@[units@.len() - 1]@));
            }
        }
        proof {
            assert(units_view(units@) =~= all.take(nm as int) + token_units(toks, ms, ti + 1));
        }
        ti += 1;
    }
    proof {
        assert(all.take(nm as int) + token_units(toks, ms, ti as int) =~= all);
    }
    sort_units(units)
}

fn unit_after_exec(u: &AlignUnit, v: &AlignUnit) -> (r: bool)
    ensures
        r == unit_after(u@, v@),
{
    let ku = match u.mora_idx {
        Some(m) => m,
        None => usize::MAX,
    };
    let kv = match v.mora_idx {
        Some(m) => m,
        None => usize::MAX,
    };
    u.sort_char > v.sort_char || (u.sort_char == v.sort_char && ku > kv)
}

fn sort_units(units: Vec<AlignUnit>) -> (r: Vec<AlignUnit>)
    ensures
        units_view(r@) == sorted_units(units_view(units@)),
{
    let ghost us = units_view(units@);
    let n = units.len();
    let mut sorted: Vec<AlignUnit> = Vec::new();
    let mut k: usize = 0;
    while k < n
        invariant
            n == us.len(),
            n == units@.len(),
            us == units_view(units@),
            k <= n,
            units_view(sorted@) == sorted_units(us.take(k as int)),
        decreases n - k,
    {
        let x = units[k];
        assert(us[k as int] == x@);
        let ghost sv = units_view(sorted@);
        let mut j: usize = 0;
        while j < sorted.len() && !unit_after_exec(&sorted[j], &x)
            invariant
                j <= sorted@.len(),
                sv == units_view(sorted@),
                first_after_from(sv, x@, j as int) == first_after_from(sv, x@, 0),
            decreases sorted.len() - j,
        {
            assert(sv[j as int] == sorted@[j as int]@);
            j += 1;
        }
        proof {
            if j < sorted@.len() {
                assert(sv[j as int] == sorted@[j as int]@);
            }
        }
        sorted.insert(j, x);
        proof {
            assert(us.take(k + 1).drop_last() == us.take(k as int));
            assert(us.take(k + 1).last() == x@);
            assert(units_view(sorted@) =~= sv.insert(j as int, x@));
        }
        k += 1;
    }
    proof {
        assert(us.take(n as int) == us);
    }
    sorted
}


/// The number of units of mora `mi` in `s`.
pub open spec fn mora_count_in(s: Seq<UnitModel>, mi: int) -> nat
    decreases s.len(),
{
    if s.len() == 0 {
        0
    } else {
        mora_count_in(s.drop_last(), mi) + if s.last().4 == Some(mi) {
            1nat
        } else {
            0nat
        }
    }
}

proof fn lemma_count_concat(a: Seq<UnitModel>, b: Seq<UnitModel>, mi: int)
    ensures
        mora_count_in(a + b, mi) == mora_count_in(a, mi) + mora_count_in(b, mi),
    decreases b.len(),
{
    if b.len() > 0 {
        lemma_count_concat(a, b.drop_last(), mi);
        assert((a + b).drop_last() =~= a + b.drop_last());
    } else {
        assert(a + b =~= a);
    }
}

proof fn lemma_count_insert(r: Seq<UnitModel>, j: int, x: UnitModel, mi: int)
    requires
        0 <= j <= r.len(),
    ensures
        mora_count_in(r.insert(j, x), mi) == mora_count_in(r, mi) + if x.4 == Some(mi) {
            1nat
        } else {
            0nat
        },
{
    assert(r.insert(j, x) =~= r.take(j) + seq![x] + r.skip(j));
    assert(r =~= r.take(j) + r.skip(j));
    lemma_count_concat(r.take(j) + seq![x], r.skip(j), mi);
    lemma_count_concat(r.take(j), seq![x], mi);
    lemma_count_concat(r.take(j), r.skip(j), mi);
    assert(seq![x].drop_last() =~= Seq::<UnitModel>::empty());
    assert(mora_count_in(Seq::<UnitModel>::empty(), mi) == 0);
    assert(mora_count_in(seq![x], mi) == if x.4 == Some(mi) {
        1nat
    } else {
        0nat
    });
}

proof fn lemma_first_after(s: Seq<UnitModel>, x: UnitModel, i: int)
    requires
        0 <= i <= s.len(),
    ensures
        i <= first_after_from(s, x, i) <= s.len(),
    decreases s.len() - i,
{
    if i < s.len() && !unit_after(s[i], x) {
        lemma_first_after(s, x, i + 1);
    }
}

/// Sorting keeps every unit: as many units of each mora as before.
proof fn lemma_sorted_units_count(s: Seq<UnitModel>, mi: int)
    ensures
        mora_count_in(sorted_units(s), mi) == mora_count_in(s, mi),
        sorted_units(s).len() == s.len(),
    decreases s.len(),
{
    if s.len() > 0 {
        let r = sorted_units(s.drop_last());
        lemma_sorted_units_count(s.drop_last(), mi);
        lemma_first_after(r, s.last(), 0);
        lemma_count_insert(r, first_after_from(r, s.last(), 0), s.last(), mi);
    }
}

proof fn lemma_mora_units_count(toks: Seq<(Seq<char>, int, int)>, moras: Seq<(int, int)>, n: int, mi: int)
    requires
        0 <= n <= moras.len(),
    ensures
        mora_count_in(Seq::new(n as nat, |k: int| mora_unit(toks, moras, k)), mi) == if 0 <= mi < n {
            1nat
        } else {
            0nat
        },
    decreases n,
{
    if n > 0 {
        lemma_mora_units_count(toks, moras, n - 1, mi);
        assert(Seq::new(n as nat, |k: int| mora_unit(toks, moras, k)).drop_last() =~= Seq::new(
            (n - 1) as nat,
            |k: int| mora_unit(toks, moras, k),
        ));
    }
}

proof fn lemma_token_units_count(toks: Seq<(Seq<char>, int, int)>, moras: Seq<(int, int)>, k: int, mi: int)
    ensures
        mora_count_in(token_units(toks, moras, k), mi) == 0,
        forall|j: int| 0 <= j < token_units(toks, moras, k).len() ==> (#[trigger] token_units(toks, moras, k)[j]).4 is None,
    decreases k,
{
    if 0 < k <= toks.len() {
        lemma_token_units_count(toks, moras, k - 1, mi);
        let prev = token_units(toks, moras, k - 1);
        if !token_covered(toks, moras, k - 1) {
            let t = token_units(toks, moras, k);
            assert(t.drop_last() =~= prev);
            assert forall|j: int| 0 <= j < t.len() implies (#[trigger] t[j]).4 is None by {
                if j < prev.len() {
                    assert(t[j] == prev[j]);
                }
            }
        }
    }
}

/// Every mora of a line is in its alignment units exactly once, and no unit
/// names a mora the line does not have.
pub proof fn lemma_each_mora_once(toks: Seq<(Seq<char>, int, int)>, moras: Seq<(int, int)>)
    ensures
        forall|mi: int|
            0 <= mi < moras.len() ==> #[trigger] mora_count_in(spec_align_units(toks, moras), mi) == 1,
        forall|mi: int|
            !(0 <= mi < moras.len()) ==> #[trigger] mora_count_in(spec_align_units(toks, moras), mi) == 0,
{
    assert forall|mi: int| #[trigger] mora_count_in(spec_align_units(toks, moras), mi) == if 0 <= mi
        < moras.len() {
        1nat
    } else {
        0nat
    } by {
        let mu = Seq::new(moras.len(), |k: int| mora_unit(toks, moras, k));
        let tu = token_units(toks, moras, toks.len() as int);
        lemma_sorted_units_count(unsorted_units(toks, moras), mi);
        lemma_count_concat(mu, tu, mi);
        lemma_mora_units_count(toks, moras, moras.len() as int, mi);
        lemma_token_units_count(toks, moras, toks.len() as int, mi);
    }
}

/// Alignment units come in text order: by first char, and by mora index
/// among units that start at the same char.
pub proof fn lemma_align_units_ordered(toks: Seq<(Seq<char>, int, int)>, moras: Seq<(int, int)>)
    ensures
        forall|i: int, j: int|
            0 <= i < j < spec_align_units(toks, moras).len() ==> !unit_after(
                #[trigger] spec_align_units(toks, moras)[i],
                #[trigger] spec_align_units(toks, moras)[j],
            ),
{
    lemma_sorted_units_ordered(unsorted_units(toks, moras));
}

proof fn lemma_first_after_bounds(s: Seq<UnitModel>, x: UnitModel, i: int)
    requires
        0 <= i <= s.len(),
    ensures
        i <= first_after_from(s, x, i) <= s.len(),
        forall|k: int| i <= k < first_after_from(s, x, i) ==> !unit_after(#[trigger] s[k], x),
        first_after_from(s, x, i) < s.len() ==> unit_after(s[first_after_from(s, x, i)], x),
    decreases s.len() - i,
{
    if i < s.len() && !unit_after(s[i], x) {
        lemma_first_after_bounds(s, x, i + 1);
    }
}

proof fn lemma_sorted_units_ordered(s: Seq<UnitModel>)
    ensures
        forall|i: int, j: int|
            0 <= i < j < sorted_units(s).len() ==> !unit_after(
                #[trigger] sorted_units(s)[i],
                #[trigger] sorted_units(s)[j],
            ),
    decreases s.len(),
{
    if s.len() > 0 {
        let r = sorted_units(s.drop_last());
        lemma_sorted_units_ordered(s.drop_last());
        let x = s.last();
        let p = first_after_from(r, x, 0);
        lemma_first_after_bounds(r, x, 0);
        let q = r.insert(p, x);
        assert forall|i: int, j: int| 0 <= i < j < q.len() implies !unit_after(
            #[trigger] q[i],
            #[trigger] q[j],
        ) by {
            if j < p {
                assert(q[i] == r[i] && q[j] == r[j]);
            } else if j == p {
                assert(q[i] == r[i]);
            } else if i < p {
                assert(q[i] == r[i] && q[j] == r[j - 1]);
                assert(!unit_after(r[i], r[j - 1]) || i == j - 1);
            } else if i == p {
                assert(q[j] == r[j - 1]);
                assert(unit_after(r[p], x));
                assert(p == j - 1 || !unit_after(r[p], r[j - 1]));
            } else {
                assert(q[i] == r[i - 1] && q[j] == r[j - 1]);
            }
        }
    }
}

} // verus!
