//! Pure helpers shared by the collector and the publisher path: the
//! deterministic record ordering (anomalous first, then active, then
//! case-insensitive name) and IPv4 address masking.

use vstd::prelude::*;
use vstd::string::StrSliceExecFns;
use vstd::string::StringExecFns;

use crate::structures::{models, NetworkInfo, RecordModel};

verus! {

/// What `str::to_lowercase` returns for the given characters.
pub uninterp spec fn lower_of(s: Seq<char>) -> Seq<char>;

/// Relies on `str::to_lowercase`: the result depends on the input's
/// characters alone (Unicode lowercasing, no locale).
#[verifier::external_body]
pub(crate) fn lowercase(s: &str) -> (r: String)
    ensures
        r@ == lower_of(s@),
{
    s.to_lowercase()
}

/// What `str::to_uppercase` returns for the given characters.
pub uninterp spec fn upper_of(s: Seq<char>) -> Seq<char>;

/// Relies on `str::to_uppercase`: the result depends on the input's
/// characters alone (Unicode uppercasing, no locale).
#[verifier::external_body]
pub(crate) fn uppercase(s: &str) -> (r: String)
    ensures
        r@ == upper_of(s@),
{
    s.to_uppercase()
}

/// Lexicographic order on character sequences, by code point.
pub open spec fn lex_le(s: Seq<char>, t: Seq<char>) -> bool
    decreases s.len(),
{
    s.len() == 0 || (t.len() > 0 && ((s[0] as u32) < (t[0] as u32) || (s[0] == t[0]
        && lex_le(s.drop_first(), t.drop_first()))))
}

proof fn lemma_lex_le_common_prefix(s: Seq<char>, t: Seq<char>, i: int)
    requires
        0 <= i <= s.len(),
        i <= t.len(),
        forall|j: int| 0 <= j < i ==> s[j] == t[j],
    ensures
        lex_le(s, t) == lex_le(s.skip(i), t.skip(i)),
    decreases i,
{
    if i == 0 {
        assert(s.skip(0) == s);
        assert(t.skip(0) == t);
    } else {
        assert(s[0] == t[0]);
        assert(lex_le(s, t) == lex_le(s.drop_first(), t.drop_first()));
        assert(forall|j: int|
            0 <= j < i - 1 ==> s.drop_first()[j] == t.drop_first()[j]);
        lemma_lex_le_common_prefix(s.drop_first(), t.drop_first(), i - 1);
        assert(s.drop_first().skip(i - 1) == s.skip(i));
        assert(t.drop_first().skip(i - 1) == t.skip(i));
    }
}

proof fn lemma_lex_le_total(s: Seq<char>, t: Seq<char>)
    ensures
        lex_le(s, t) || lex_le(t, s),
    decreases s.len(),
{
    if s.len() > 0 && t.len() > 0 {
        if (s[0] as u32) < (t[0] as u32) || (t[0] as u32) < (s[0] as u32) {
        } else {
            vstd::utf8::char_u32_cast(s[0], s[0] as u32);
            vstd::utf8::char_u32_cast(t[0], t[0] as u32);
            assert(s[0] == t[0]);
            lemma_lex_le_total(s.drop_first(), t.drop_first());
        }
    }
}

proof fn lemma_lex_le_trans(a: Seq<char>, b: Seq<char>, c: Seq<char>)
    requires
        lex_le(a, b),
        lex_le(b, c),
    ensures
        lex_le(a, c),
    decreases a.len(),
{
    if a.len() > 0 {
        assert(b.len() > 0);
        assert(c.len() > 0);
        if a[0] == b[0] && b[0] == c[0] {
            lemma_lex_le_trans(a.drop_first(), b.drop_first(), c.drop_first());
        }
    }
}

/// Compares two strings character by character, by code point.
fn lex_le_str(s: &str, t: &str) -> (r: bool)
    ensures
        r == lex_le(s@, t@),
{
    let sl = s.unicode_len();
    let tl = t.unicode_len();
    let mut i: usize = 0;
    loop
        invariant
            i <= sl,
            i <= tl,
            sl == s@.len(),
            tl == t@.len(),
            forall|j: int| 0 <= j < i ==> s@[j] == t@[j],
        decreases sl - i,
    {
        proof {
            lemma_lex_le_common_prefix(s@, t@, i as int);
        }
        if i == sl {
            return true;
        }
        if i == tl {
            return false;
        }
        let cs = s.get_char(i);
        let ct = t.get_char(i);
        if cs == ct {
            i = i + 1;
        } else {
            return (cs as u32) < (ct as u32);
        }
    }
}

/// Rank of a record under the anomalous-first criterion.
pub open spec fn anom_rank(r: RecordModel) -> int {
    if r.anomaly.is_anomalous {
        0
    } else {
        1
    }
}

/// Rank of a record under the active-before-idle criterion.
pub open spec fn status_rank(r: RecordModel) -> int {
    if r.status == "active"@ {
        0
    } else {
        1
    }
}

/// The tie-break chain of the published ordering: anomalous records first,
/// then active ones, then case-insensitive name ascending.
pub open spec fn rec_le(a: RecordModel, b: RecordModel) -> bool {
    anom_rank(a) < anom_rank(b) || (anom_rank(a) == anom_rank(b) && (status_rank(a) < status_rank(
        b,
    ) || (status_rank(a) == status_rank(b) && lex_le(lower_of(a.name), lower_of(b.name)))))
}

proof fn lemma_rec_le_total(a: RecordModel, b: RecordModel)
    ensures
        rec_le(a, b) || rec_le(b, a),
{
    lemma_lex_le_total(lower_of(a.name), lower_of(b.name));
}

proof fn lemma_rec_le_trans(a: RecordModel, b: RecordModel, c: RecordModel)
    requires
        rec_le(a, b),
        rec_le(b, c),
    ensures
        rec_le(a, c),
{
    if anom_rank(a) == anom_rank(c) && status_rank(a) == status_rank(c) && anom_rank(a)
        == anom_rank(b) && status_rank(a) == status_rank(b) {
        lemma_lex_le_trans(lower_of(a.name), lower_of(b.name), lower_of(c.name));
    }
}

fn is_active(s: &String) -> (r: bool)
    ensures
        r == (s@ == "active"@),
{
    let lit: String = "active".to_owned();
    *s == lit
}

/// Decides the published ordering between two records.
fn record_le(a: &NetworkInfo, b: &NetworkInfo) -> (r: bool)
    ensures
        r == rec_le(a@, b@),
{
    if a.anomaly.is_anomalous != b.anomaly.is_anomalous {
        return a.anomaly.is_anomalous;
    }
    let a_active = is_active(&a.status);
    let b_active = is_active(&b.status);
    if a_active != b_active {
        return a_active;
    }
    let la = lowercase(a.name.as_str());
    let lb = lowercase(b.name.as_str());
    lex_le_str(la.as_str(), lb.as_str())
}

/// Where a record lands when inserted into an already-ordered sequence:
/// after every record that precedes or ties with it, so that a later
/// record never overtakes an equal earlier one.
pub open spec fn insert_spec(s: Seq<RecordModel>, x: RecordModel) -> Seq<RecordModel>
    decreases s.len(),
{
    if s.len() == 0 {
        seq![x]
    } else if !rec_le(s[0], x) {
        seq![x] + s
    } else {
        seq![s[0]] + insert_spec(s.drop_first(), x)
    }
}

/// The stable ordering of a whole sequence under `rec_le`: each record in
/// turn inserted behind its ties.
pub open spec fn sort_spec(s: Seq<RecordModel>) -> Seq<RecordModel>
    decreases s.len(),
{
    if s.len() == 0 {
        Seq::empty()
    } else {
        insert_spec(sort_spec(s.drop_last()), s.last())
    }
}

proof fn lemma_insert_spec_at(s: Seq<RecordModel>, x: RecordModel, j: int)
    requires
        0 <= j <= s.len(),
        forall|k: int| 0 <= k < j ==> rec_le(#[trigger] s[k], x),
        j < s.len() ==> !rec_le(s[j], x),
    ensures
        insert_spec(s, x) == s.take(j) + seq![x] + s.skip(j),
    decreases j,
{
    if j == 0 {
        if s.len() == 0 {
            assert(insert_spec(s, x) =~= s.take(0) + seq![x] + s.skip(0));
        } else {
            assert(insert_spec(s, x) =~= s.take(0) + seq![x] + s.skip(0));
        }
    } else {
        assert(rec_le(s[0], x));
        lemma_insert_spec_at(s.drop_first(), x, j - 1);
        assert(insert_spec(s, x) == seq![s[0]] + insert_spec(s.drop_first(), x));
        assert(s.drop_first().take(j - 1) =~= s.take(j).drop_first());
        assert(s.drop_first().skip(j - 1) =~= s.skip(j));
        assert(seq![s[0]] + (s.drop_first().take(j - 1) + seq![x] + s.drop_first().skip(j - 1))
            =~= s.take(j) + seq![x] + s.skip(j));
    }
}

/// Inserts one record into an ordered vector, behind its ties.
fn insert_record(out: &mut Vec<NetworkInfo>, x: NetworkInfo)
    ensures
        models(final(out)@) == insert_spec(models(old(out)@), x@),
{
    let n = out.len();
    let mut j: usize = 0;
    while j < n && record_le(&out[j], &x)
        invariant
            j <= n,
            n == out@.len(),
            forall|k: int| 0 <= k < j ==> rec_le(#[trigger] models(out@)[k], x@),
        decreases n - j,
    {
        j = j + 1;
    }
    proof {
        lemma_insert_spec_at(models(out@), x@, j as int);
    }
    out.insert(j, x);
    proof {
        assert(models(out@) =~= models(old(out)@).take(j as int) + seq![x@] + models(
            old(out)@,
        ).skip(j as int));
    }
}

/// Orders the records for publication: anomalous first, then active before
/// idle, then case-insensitive name ascending; records that tie on the whole
/// chain keep their relative order.
pub fn rigid_sorter(interfaces: Vec<NetworkInfo>) -> (r: Vec<NetworkInfo>)
    ensures
        models(r@) == sort_spec(models(interfaces@)),
{
    let ghost orig: Seq<RecordModel> = models(interfaces@);
    let mut rest = interfaces;
    let mut out: Vec<NetworkInfo> = Vec::new();
    proof {
        assert(models(rest@) =~= orig.skip(0));
        assert(orig.take(0) =~= Seq::<RecordModel>::empty());
    }
    while rest.len() > 0
        invariant
            rest@.len() <= orig.len(),
            models(rest@) =~= orig.skip(orig.len() - rest@.len()),
            models(out@) == sort_spec(orig.take(orig.len() - rest@.len())),
        decreases rest@.len(),
    {
        let ghost k = orig.len() - rest@.len();
        let ghost rest0 = rest@;
        let x = rest.remove(0);
        proof {
            assert(x@ == models(rest0)[0]);
            assert(x@ == orig[k]);
            assert forall|i: int| 0 <= i < models(rest@).len() implies models(rest@)[i] == orig.skip(
                k + 1,
            )[i] by {
                assert(rest@[i] == rest0[i + 1]);
                assert(models(rest0)[i + 1] == orig.skip(k)[i + 1]);
            }
            assert(models(rest@) =~= orig.skip(k + 1));
        }
        insert_record(&mut out, x);
        proof {
            assert(orig.take(k + 1).drop_last() =~= orig.take(k));
            assert(orig.take(k + 1).last() == orig[k]);
            assert(models(out@) == sort_spec(orig.take(k + 1)));
        }
    }
    proof {
        assert(orig.take(orig.len() as int) =~= orig);
    }
    out
}

/// Pairwise ordered under the tie-break chain.
pub open spec fn sorted_rec(s: Seq<RecordModel>) -> bool {
    forall|i: int, j: int| 0 <= i < j < s.len() ==> rec_le(#[trigger] s[i], #[trigger] s[j])
}

proof fn lemma_insert_spec_elems(s: Seq<RecordModel>, x: RecordModel)
    ensures
        insert_spec(s, x).len() == s.len() + 1,
        forall|i: int|
            0 <= i < insert_spec(s, x).len() ==> (#[trigger] insert_spec(s, x)[i] == x
                || s.contains(insert_spec(s, x)[i])),
    decreases s.len(),
{
    if s.len() == 0 {
    } else if !rec_le(s[0], x) {
        assert forall|i: int| 0 <= i < insert_spec(s, x).len() implies (#[trigger] insert_spec(
            s,
            x,
        )[i] == x || s.contains(insert_spec(s, x)[i])) by {
            if i > 0 {
                assert(insert_spec(s, x)[i] == s[i - 1]);
            }
        }
    } else {
        lemma_insert_spec_elems(s.drop_first(), x);
        assert forall|i: int| 0 <= i < insert_spec(s, x).len() implies (#[trigger] insert_spec(
            s,
            x,
        )[i] == x || s.contains(insert_spec(s, x)[i])) by {
            if i == 0 {
                assert(insert_spec(s, x)[0] == s[0]);
                assert(s.contains(s[0]));
            } else {
                let q = insert_spec(s.drop_first(), x);
                assert(insert_spec(s, x)[i] == q[i - 1]);
                if q[i - 1] != x {
                    let k = choose|k: int| 0 <= k < s.drop_first().len() && s.drop_first()[k] == q[
                        i - 1
                    ];
                    assert(s[k + 1] == q[i - 1]);
                }
            }
        }
    }
}

proof fn lemma_insert_spec_sorted(s: Seq<RecordModel>, x: RecordModel)
    requires
        sorted_rec(s),
    ensures
        sorted_rec(insert_spec(s, x)),
    decreases s.len(),
{
    let r = insert_spec(s, x);
    if s.len() == 0 {
    } else if !rec_le(s[0], x) {
        lemma_rec_le_total(s[0], x);
        assert forall|i: int, j: int| 0 <= i < j < r.len() implies rec_le(r[i], r[j]) by {
            if i == 0 {
                assert(r[0] == x);
                assert(r[j] == s[j - 1]);
                if j == 1 {
                } else {
                    lemma_rec_le_trans(x, s[0], s[j - 1]);
                }
            } else {
                assert(r[i] == s[i - 1] && r[j] == s[j - 1]);
            }
        }
    } else {
        assert(sorted_rec(s.drop_first())) by {
            assert forall|i: int, j: int|
                0 <= i < j < s.drop_first().len() implies rec_le(
                #[trigger] s.drop_first()[i],
                #[trigger] s.drop_first()[j],
            ) by {
                assert(s.drop_first()[i] == s[i + 1] && s.drop_first()[j] == s[j + 1]);
            }
        }
        lemma_insert_spec_sorted(s.drop_first(), x);
        lemma_insert_spec_elems(s.drop_first(), x);
        let q = insert_spec(s.drop_first(), x);
        assert forall|i: int, j: int| 0 <= i < j < r.len() implies rec_le(r[i], r[j]) by {
            if i == 0 {
                assert(r[0] == s[0]);
                assert(r[j] == q[j - 1]);
                if q[j - 1] == x {
                } else {
                    let k = choose|k: int| 0 <= k < s.drop_first().len() && s.drop_first()[k] == q[
                        j - 1
                    ];
                    assert(s[k + 1] == q[j - 1]);
                    assert(rec_le(s[0], s[k + 1]));
                }
            } else {
                assert(r[i] == q[i - 1] && r[j] == q[j - 1]);
            }
        }
    }
}

proof fn lemma_insert_spec_multiset(s: Seq<RecordModel>, x: RecordModel)
    ensures
        insert_spec(s, x).to_multiset() == s.to_multiset().insert(x),
    decreases s.len(),
{
    broadcast use vstd::seq_lib::group_to_multiset_ensures;

    if s.len() == 0 {
        assert(insert_spec(s, x) =~= s.insert(0, x));
        vstd::seq_lib::to_multiset_insert(s, 0, x);
    } else if !rec_le(s[0], x) {
        assert(insert_spec(s, x) =~= s.insert(0, x));
        vstd::seq_lib::to_multiset_insert(s, 0, x);
    } else {
        lemma_insert_spec_multiset(s.drop_first(), x);
        let q = insert_spec(s.drop_first(), x);
        assert(insert_spec(s, x) =~= q.insert(0, s[0]));
        vstd::seq_lib::to_multiset_insert(q, 0, s[0]);
        assert(s.drop_first().insert(0, s[0]) =~= s);
        vstd::seq_lib::to_multiset_insert(s.drop_first(), 0, s[0]);
        assert(insert_spec(s, x).to_multiset() =~= s.to_multiset().insert(x));
    }
}

/// The published ordering is sorted by the tie-break chain: every anomalous
/// record precedes every benign one, among records with equal anomaly rank
/// the active ones precede the idle ones, and among records equal on both
/// the case-insensitive names ascend.
pub proof fn lemma_sort_spec_sorted(s: Seq<RecordModel>)
    ensures
        sorted_rec(sort_spec(s)),
    decreases s.len(),
{
    if s.len() > 0 {
        lemma_sort_spec_sorted(s.drop_last());
        lemma_insert_spec_sorted(sort_spec(s.drop_last()), s.last());
    }
}

/// The published ordering only rearranges the records: the sorted sequence
/// holds exactly the records of the input, multiplicity included.
pub proof fn lemma_sort_spec_permutation(s: Seq<RecordModel>)
    ensures
        sort_spec(s).to_multiset() == s.to_multiset(),
    decreases s.len(),
{
    broadcast use vstd::seq_lib::group_to_multiset_ensures;

    if s.len() > 0 {
        lemma_sort_spec_permutation(s.drop_last());
        lemma_insert_spec_multiset(sort_spec(s.drop_last()), s.last());
        assert(s.drop_last().push(s.last()) =~= s);
        assert(s.drop_last().push(s.last()).to_multiset() =~= s.drop_last().to_multiset().insert(
            s.last(),
        ));
    }
}

/// A permutation of records whose interface names are pairwise distinct
/// keeps them pairwise distinct.
pub(crate) proof fn lemma_permutation_distinct_names(a: Seq<RecordModel>, b: Seq<RecordModel>)
    requires
        a.to_multiset() == b.to_multiset(),
        forall|i: int, j: int|
            0 <= i < j < a.len() ==> (#[trigger] a[i]).name != (#[trigger] a[j]).name,
    ensures
        forall|i: int, j: int|
            0 <= i < j < b.len() ==> (#[trigger] b[i]).name != (#[trigger] b[j]).name,
{
    broadcast use vstd::seq_lib::group_to_multiset_ensures;

    assert(a.no_duplicates()) by {
        assert forall|i: int, j: int|
            0 <= i < a.len() && 0 <= j < a.len() && i != j implies a[i] != a[j] by {
            if i < j {
                assert(a[i].name != a[j].name);
            } else {
                assert(a[j].name != a[i].name);
            }
        }
    }
    a.lemma_multiset_has_no_duplicates();
    b.lemma_multiset_has_no_duplicates_conv();
    assert forall|i: int, j: int| 0 <= i < j < b.len() implies (#[trigger] b[i]).name != (
    #[trigger] b[j]).name by {
        if b[i].name == b[j].name {
            assert(b.contains(b[i]));
            assert(b.contains(b[j]));
            assert(b.to_multiset().count(b[i]) > 0);
            assert(b.to_multiset().count(b[j]) > 0);
            assert(a.to_multiset().count(b[i]) > 0);
            assert(a.to_multiset().count(b[j]) > 0);
            assert(a.contains(b[i]));
            assert(a.contains(b[j]));
            let p = choose|p: int| 0 <= p < a.len() && a[p] == b[i];
            let q = choose|q: int| 0 <= q < a.len() && a[q] == b[j];
            assert(b[i] != b[j]);
            assert(p != q);
            if p < q {
                assert(a[p].name != a[q].name);
            } else {
                assert(a[q].name != a[p].name);
            }
        }
    }
}

/// Whether every character is a decimal digit.
pub open spec fn all_digits(s: Seq<char>) -> bool {
    forall|i: int| 0 <= i < s.len() ==> 48 <= (#[trigger] s[i]) as u32 <= 57
}

/// The numeric value of a run of decimal digits.
pub open spec fn digits_val(s: Seq<char>) -> int
    decreases s.len(),
{
    if s.len() == 0 {
        0
    } else {
        digits_val(s.drop_last()) * 10 + ((s.last() as u32) - 48)
    }
}

/// Whether the characters form one octet of a dotted quad: one to three
/// digits valuing at most 255.
pub open spec fn octet_ok(s: Seq<char>) -> bool {
    1 <= s.len() <= 3 && all_digits(s) && digits_val(s) <= 255
}

/// Whether a dotted quad lies in a private range — 10/8, 172.16/12 or
/// 192.168/16 — decided on the numeric values of its first two octets.
pub open spec fn is_private_quad(s: Seq<char>) -> bool {
    let o1 = s.take(dot_idx(s, 0));
    let o2 = s.subrange(dot_idx(s, 0) + 1, dot_idx(s, 1));
    octet_ok(o1) && octet_ok(o2) && (digits_val(o1) == 10 || (digits_val(o1) == 172 && 16
        <= digits_val(o2) <= 31) || (digits_val(o1) == 192 && digits_val(o2) == 168))
}

/// How many dots the characters hold.
pub open spec fn dot_count(s: Seq<char>) -> int
    decreases s.len(),
{
    if s.len() == 0 {
        0
    } else {
        (if s[0] == '.' {
            1int
        } else {
            0int
        }) + dot_count(s.drop_first())
    }
}

/// The position of the dot that `k` dots precede.
pub open spec fn dot_idx(s: Seq<char>, k: int) -> int
    decreases s.len(),
{
    if s.len() == 0 {
        0
    } else if s[0] == '.' {
        if k == 0 {
            0
        } else {
            1 + dot_idx(s.drop_first(), k - 1)
        }
    } else {
        1 + dot_idx(s.drop_first(), k)
    }
}

/// What the published form of an IPv4 address is: private-range dotted
/// quads verbatim, other dotted quads redacted to their first two octets
/// followed by `.x.x`, anything that is not four dot-separated parts
/// verbatim.
pub open spec fn mask_ip_spec(s: Seq<char>) -> Seq<char> {
    if dot_count(s) != 3 {
        s
    } else if is_private_quad(s) {
        s
    } else {
        s.take(dot_idx(s, 1)) + ".x.x"@
    }
}

proof fn lemma_dot_count_nonneg(s: Seq<char>)
    ensures
        dot_count(s) >= 0,
    decreases s.len(),
{
    if s.len() > 0 {
        lemma_dot_count_nonneg(s.drop_first());
    }
}

proof fn lemma_dot_count_push(t: Seq<char>, c: char)
    ensures
        dot_count(t.push(c)) == dot_count(t) + (if c == '.' {
            1int
        } else {
            0int
        }),
    decreases t.len(),
{
    if t.len() == 0 {
        assert(t.push(c)[0] == c);
        assert(t.push(c).drop_first() =~= Seq::<char>::empty());
        assert(t.push(c).len() == 1);
        assert(dot_count(Seq::<char>::empty()) == 0);
        assert(dot_count(t.push(c)) == (if c == '.' {
            1int
        } else {
            0int
        }) + dot_count(t.push(c).drop_first()));
    } else {
        assert(t.push(c)[0] == t[0]);
        assert(t.push(c).drop_first() =~= t.drop_first().push(c));
        lemma_dot_count_push(t.drop_first(), c);
        assert(t.push(c).len() > 0);
        assert(dot_count(t.push(c)) == (if t[0] == '.' {
            1int
        } else {
            0int
        }) + dot_count(t.push(c).drop_first()));
        assert(dot_count(t) == (if t[0] == '.' {
            1int
        } else {
            0int
        }) + dot_count(t.drop_first()));
    }
}

proof fn lemma_dot_idx_from_scan(s: Seq<char>, i: int, k: int)
    requires
        0 <= i < s.len(),
        0 <= k,
        s[i] == '.',
        dot_count(s.take(i)) == k,
    ensures
        dot_idx(s, k) == i,
    decreases i,
{
    if i == 0 {
        assert(s.take(0) =~= Seq::<char>::empty());
    } else {
        assert(s.take(i)[0] == s[0]);
        assert(s.take(i).drop_first() =~= s.drop_first().take(i - 1));
        lemma_dot_count_nonneg(s.drop_first().take(i - 1));
        assert(s.drop_first()[i - 1] == s[i]);
        if s[0] == '.' {
            lemma_dot_idx_from_scan(s.drop_first(), i - 1, k - 1);
        } else {
            lemma_dot_idx_from_scan(s.drop_first(), i - 1, k);
        }
    }
}

/// Reads one octet: `Some` exactly for one to three digits valuing at
/// most 255.
fn parse_octet(p: &str) -> (r: Option<u16>)
    ensures
        (r is Some <==> octet_ok(p@)),
        r matches Some(v) ==> v as int == digits_val(p@),
{
    let n = p.unicode_len();
    if n == 0 || n > 3 {
        return None;
    }
    let mut v: u16 = 0;
    let mut i: usize = 0;
    proof {
        assert(p@.take(0) =~= Seq::<char>::empty());
    }
    while i < n
        invariant
            i <= n,
            n == p@.len(),
            n <= 3,
            all_digits(p@.take(i as int)),
            v as int == digits_val(p@.take(i as int)),
            i == 0 ==> v == 0,
            i == 1 ==> v <= 9,
            i == 2 ==> v <= 99,
            i == 3 ==> v <= 999,
        decreases n - i,
    {
        let c = p.get_char(i);
        let cv = c as u32;
        if cv < 48 || cv > 57 {
            proof {
                assert(!(48 <= p@[i as int] as u32 <= 57));
                assert(!all_digits(p@));
            }
            return None;
        }
        proof {
            assert(p@.take(i as int + 1).drop_last() =~= p@.take(i as int));
            assert(p@.take(i as int + 1).last() == p@[i as int]);
            assert forall|j: int| 0 <= j < i + 1 implies 48 <= (#[trigger] p@.take(
                i as int + 1,
            )[j]) as u32 <= 57 by {
                if j < i {
                    assert(p@.take(i as int + 1)[j] == p@.take(i as int)[j]);
                }
            }
        }
        v = v * 10 + ((cv - 48) as u16);
        i = i + 1;
    }
    proof {
        assert(p@.take(n as int) =~= p@);
    }
    if v > 255 {
        None
    } else {
        Some(v)
    }
}

/// Publishes an IPv4 address: private-range dotted quads (10/8, 172.16/12,
/// 192.168/16) verbatim, any other dotted quad partially redacted to
/// `a.b.x.x`, and any string that is not four dot-separated parts
/// verbatim.
pub fn mask_ip(ip: &str) -> (r: String)
    ensures
        r@ == mask_ip_spec(ip@),
{
    let n = ip.unicode_len();
    let mut i: usize = 0;
    let mut dots: usize = 0;
    let mut first: usize = 0;
    let mut have_first = false;
    let mut second: usize = 0;
    let mut have_second = false;
    proof {
        assert(ip@.take(0) =~= Seq::<char>::empty());
    }
    while i < n
        invariant
            i <= n,
            n == ip@.len(),
            dots <= i,
            dots == dot_count(ip@.take(i as int)),
            have_first <==> dots >= 1,
            have_first ==> first < i && dot_idx(ip@, 0) == first as int,
            have_second <==> dots >= 2,
            have_second ==> second < i && dot_idx(ip@, 1) == second as int && first < second,
        decreases n - i,
    {
        let c = ip.get_char(i);
        proof {
            assert(ip@.take(i as int + 1) =~= ip@.take(i as int).push(ip@[i as int]));
            lemma_dot_count_push(ip@.take(i as int), ip@[i as int]);
        }
        if c == '.' {
            if dots == 0 {
                first = i;
                have_first = true;
                proof {
                    lemma_dot_idx_from_scan(ip@, i as int, 0);
                }
            }
            if dots == 1 {
                second = i;
                have_second = true;
                proof {
                    lemma_dot_idx_from_scan(ip@, i as int, 1);
                }
            }
            dots = dots + 1;
        }
        i = i + 1;
    }
    proof {
        assert(ip@.take(n as int) =~= ip@);
    }
    if dots != 3 {
        return ip.to_owned();
    }
    let o1 = ip.substring_char(0, first);
    let o2 = ip.substring_char(first + 1, second);
    proof {
        assert(ip@.subrange(0, first as int) =~= ip@.take(first as int));
    }
    let p1 = parse_octet(o1);
    let p2 = parse_octet(o2);
    let private = match (p1, p2) {
        (Some(a), Some(b)) => a == 10 || (a == 172 && 16 <= b && b <= 31) || (a == 192 && b
            == 168),
        _ => false,
    };
    proof {
        assert(private == is_private_quad(ip@));
    }
    if private {
        ip.to_owned()
    } else {
        let prefix = ip.substring_char(0, second);
        let masked = prefix.to_owned().concat(".x.x");
        proof {
            assert(ip@.subrange(0, second as int) =~= ip@.take(second as int));
        }
        masked
    }
}

} // verus!
