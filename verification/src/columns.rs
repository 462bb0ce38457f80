//! Persisted column order: a semicolon-joined list of column ids, applied
//! on load so that known columns follow the persisted sequence and any
//! unmatched columns keep their default order at the end.
use vstd::prelude::*;

use crate::sort::strs_view;

verus! {

use vstd::string::StrSliceExecFns;
use vstd::string::StringExecFns;

/// Number of characters before the first semicolon.
pub open spec fn leading_non_semi(s: Seq<char>) -> nat
    decreases s.len(),
{
    if s.len() == 0 || s[0] == ';' {
        0
    } else {
        1 + leading_non_semi(s.drop_first())
    }
}

proof fn lemma_leading_non_semi_exact(s: Seq<char>, i: int)
    requires
        0 <= i <= s.len(),
        forall|j: int| 0 <= j < i ==> #[trigger] s[j] != ';',
        i < s.len() ==> s[i] == ';',
    ensures
        leading_non_semi(s) == i,
    decreases s.len(),
{
    if s.len() == 0 {
    } else if i == 0 {
    } else {
        lemma_leading_non_semi_exact(s.drop_first(), i - 1);
    }
}

/// The semicolon-separated parts of `s`, in order; an empty string is one
/// empty part, and empty parts between semicolons are kept.
pub open spec fn spec_split_semi(s: Seq<char>) -> Seq<Seq<char>>
    decreases s.len(),
{
    let k = leading_non_semi(s);
    if k >= s.len() {
        seq![s]
    } else {
        seq![s.subrange(0, k as int)] + spec_split_semi(s.subrange(k as int + 1, s.len() as int))
    }
}

/// Split a persisted column-order value at semicolons.
pub fn split_semicolons(s: &str) -> (r: Vec<String>)
    ensures
        strs_view(r@) == spec_split_semi(s@),
    decreases s@.len(),
{
    let n = s.unicode_len();
    let mut a: usize = 0;
    while a < n && s.get_char(a) != ';'
        invariant
            a <= n,
            n == s@.len(),
            forall|j: int| 0 <= j < a ==> #[trigger] s@[j] != ';',
        decreases n - a,
    {
        a += 1;
    }
    proof {
        lemma_leading_non_semi_exact(s@, a as int);
    }
    if a == n {
        let mut r: Vec<String> = Vec::new();
        r.push(s.to_owned());
        proof {
            assert(strs_view(r@) =~= seq![s@]);
        }
        return r;
    }
    let head = s.substring_char(0, a).to_owned();
    let tail = s.substring_char(a + 1, n);
    let rest = split_semicolons(tail);
    let mut r: Vec<String> = Vec::new();
    r.push(head);
    let mut i: usize = 0;
    let ghost restv = rest@;
    while i < rest.len()
        invariant
            rest@ == restv,
            i <= restv.len(),
            r@.len() == i + 1,
            r@[0]@ == s@.subrange(0, leading_non_semi(s@) as int),
            forall|k: int| 0 <= k < i ==> (#[trigger] r@[k + 1])@ == restv[k]@,
        decreases restv.len() - i,
    {
        let part = rest[i].clone();
        r.push(part);
        i += 1;
    }
    proof {
        assert(strs_view(r@) =~= seq![s@.subrange(0, leading_non_semi(s@) as int)] + strs_view(
            restv,
        )) by {
            assert forall|k: int| 0 <= k < r@.len() implies strs_view(r@)[k] == (seq![
                s@.subrange(0, leading_non_semi(s@) as int),
            ] + strs_view(restv))[k] by {
                if k > 0 {
                    assert(r@[(k - 1) + 1]@ == restv[k - 1]@);
                }
            }
        }
        assert(strs_view(restv) == spec_split_semi(tail@));
    }
    r
}

/// The parts joined with semicolons, as the order is persisted.
pub open spec fn spec_join_semi(parts: Seq<Seq<char>>) -> Seq<char>
    decreases parts.len(),
{
    if parts.len() == 0 {
        Seq::empty()
    } else if parts.len() == 1 {
        parts[0]
    } else {
        spec_join_semi(parts.drop_last()) + seq![';'] + parts.last()
    }
}

/// Join column ids with semicolons for persistence.
pub fn join_semicolons(parts: &Vec<String>) -> (r: String)
    ensures
        r@ == spec_join_semi(strs_view(parts@)),
{
    proof {
        reveal_strlit(";");
        assert(";"@ =~= seq![';']);
    }
    let n = parts.len();
    let mut r = String::new();
    let mut i: usize = 0;
    proof {
        assert(strs_view(parts@).len() == n);
        assert(r@ =~= spec_join_semi(strs_view(parts@).subrange(0, 0)));
    }
    while i < n
        invariant
            n == parts@.len(),
            i <= n,
            ";"@ =~= seq![';'],
            r@ == spec_join_semi(strs_view(parts@).subrange(0, i as int)),
        decreases n - i,
    {
        if i > 0 {
            r.append(";");
        }
        r.append(parts[i].as_str());
        proof {
            let pre = strs_view(parts@).subrange(0, i as int);
            let pre1 = strs_view(parts@).subrange(0, i + 1 as int);
            assert(pre1.drop_last() =~= pre);
            assert(pre1.last() == strs_view(parts@)[i as int]);
            assert(strs_view(parts@)[i as int] == parts@[i as int]@);
            if i == 0 {
                assert(r@ =~= pre1[0]);
            } else {
                assert(r@ =~= spec_join_semi(pre) + seq![';'] + pre1.last());
            }
        }
        i += 1;
    }
    proof {
        assert(strs_view(parts@).subrange(0, n as int) =~= strs_view(parts@));
    }
    r
}

/// The first index of `cols` holding exactly `id`; meaningful only when one
/// does.
pub open spec fn spec_first_index(cols: Seq<Seq<char>>, id: Seq<char>) -> int
    decreases cols.len(),
{
    if cols.len() == 0 {
        0
    } else if cols[0] == id {
        0
    } else {
        1 + spec_first_index(cols.drop_first(), id)
    }
}

proof fn lemma_first_index_bounds(cols: Seq<Seq<char>>, id: Seq<char>)
    requires
        cols.contains(id),
    ensures
        0 <= spec_first_index(cols, id) < cols.len(),
        cols[spec_first_index(cols, id)] == id,
        forall|j: int| 0 <= j < spec_first_index(cols, id) ==> #[trigger] cols[j] != id,
    decreases cols.len(),
{
    if cols.len() > 0 && cols[0] != id {
        assert(cols.drop_first().contains(id)) by {
            let k = choose|k: int| 0 <= k < cols.len() && cols[k] == id;
            assert(cols.drop_first()[k - 1] == id);
        }
        lemma_first_index_bounds(cols.drop_first(), id);
        assert forall|j: int| 0 <= j < spec_first_index(cols, id) implies #[trigger] cols[j]
            != id by {
            if j > 0 {
                assert(cols.drop_first()[j - 1] == cols[j]);
            }
        }
    }
}

/// The known columns reordered to follow the persisted sequence: each
/// persisted id pulls the first remaining column with that id to the front,
/// unknown persisted ids are skipped, and whatever remains keeps its
/// default order at the end.
pub open spec fn spec_apply_order(persisted: Seq<Seq<char>>, remaining: Seq<Seq<char>>) -> Seq<
    Seq<char>,
>
    decreases persisted.len(),
{
    if persisted.len() == 0 {
        remaining
    } else {
        let p = persisted[0];
        if remaining.contains(p) {
            let k = spec_first_index(remaining, p);
            seq![p] + spec_apply_order(persisted.drop_first(), remaining.remove(k))
        } else {
            spec_apply_order(persisted.drop_first(), remaining)
        }
    }
}

fn first_index_of(cols: &Vec<String>, id: &String) -> (r: Option<usize>)
    ensures
        match r {
            Some(k) => strs_view(cols@).contains(id@) && k < cols@.len() && k
                == spec_first_index(strs_view(cols@), id@),
            None => !strs_view(cols@).contains(id@),
        },
{
    let n = cols.len();
    let mut i: usize = 0;
    while i < n
        invariant
            n == cols@.len(),
            i <= n,
            forall|j: int| 0 <= j < i ==> #[trigger] strs_view(cols@)[j] != id@,
        decreases n - i,
    {
        if cols[i].eq(id) {
            proof {
                assert(strs_view(cols@)[i as int] == id@);
                assert(strs_view(cols@).contains(id@));
                lemma_first_index_bounds(strs_view(cols@), id@);
                let f = spec_first_index(strs_view(cols@), id@);
                if f < i {
                    assert(strs_view(cols@)[f] != id@);
                }
                if f > i {
                    assert(strs_view(cols@)[i as int] != id@);
                }
            }
            return Some(i);
        }
        proof {
            assert(strs_view(cols@)[i as int] == cols@[i as int]@);
        }
        i += 1;
    }
    proof {
        if strs_view(cols@).contains(id@) {
            let k = choose|k: int|
                0 <= k < strs_view(cols@).len() && strs_view(cols@)[k] == id@;
        }
    }
    None
}

/// Reorder the known columns to match a persisted order, appending any
/// column the persisted value does not mention, in its default position.
pub fn apply_column_order(columns: &Vec<String>, persisted: &Vec<String>) -> (r: Vec<String>)
    ensures
        strs_view(r@) == spec_apply_order(strs_view(persisted@), strs_view(columns@)),
{
    let np = persisted.len();
    let mut remaining: Vec<String> = Vec::new();
    let mut c: usize = 0;
    while c < columns.len()
        invariant
            c <= columns@.len(),
            remaining@.len() == c,
            forall|k: int| 0 <= k < c ==> (#[trigger] remaining@[k])@ == columns@[k]@,
        decreases columns@.len() - c,
    {
        let col = columns[c].clone();
        remaining.push(col);
        c += 1;
    }
    proof {
        assert(strs_view(remaining@) =~= strs_view(columns@));
    }
    let mut out: Vec<String> = Vec::new();
    let mut i: usize = 0;
    proof {
        assert(strs_view(persisted@).skip(0) =~= strs_view(persisted@));
        assert(strs_view(out@) + spec_apply_order(
            strs_view(persisted@).skip(0),
            strs_view(remaining@),
        ) =~= spec_apply_order(strs_view(persisted@), strs_view(columns@)));
    }
    while i < np
        invariant
            np == persisted@.len(),
            i <= np,
            strs_view(out@) + spec_apply_order(
                strs_view(persisted@).skip(i as int),
                strs_view(remaining@),
            ) == spec_apply_order(strs_view(persisted@), strs_view(columns@)),
        decreases np - i,
    {
        let ghost suf = strs_view(persisted@).skip(i as int);
        proof {
            assert(suf[0] == persisted@[i as int]@);
            assert(suf.drop_first() =~= strs_view(persisted@).skip(i + 1));
        }
        let p = &persisted[i];
        match first_index_of(&remaining, p) {
            Some(k) => {
                let ghost rem_pre = strs_view(remaining@);
                let ghost out_pre = strs_view(out@);
                let moved = remaining.remove(k);
                out.push(moved);
                proof {
                    assert(strs_view(remaining@) =~= rem_pre.remove(k as int)) by {
                        rem_pre.remove_ensures(k as int);
                        assert forall|t: int| 0 <= t < remaining@.len() implies strs_view(
                            remaining@,
                        )[t] == rem_pre.remove(k as int)[t] by {
                            if t < k {
                                assert(strs_view(remaining@)[t] == remaining@[t]@);
                            } else {
                                assert(strs_view(remaining@)[t] == remaining@[t]@);
                                assert(rem_pre.remove(k as int)[t] == rem_pre[t + 1]);
                            }
                        }
                    }
                    assert(strs_view(out@) =~= out_pre.push(suf[0])) by {
                        assert(rem_pre[k as int] == suf[0]) by {
                            lemma_first_index_bounds(rem_pre, p@);
                        }
                    }
                    assert(out_pre.push(suf[0]) + spec_apply_order(
                        suf.drop_first(),
                        rem_pre.remove(k as int),
                    ) =~= out_pre + (seq![suf[0]] + spec_apply_order(
                        suf.drop_first(),
                        rem_pre.remove(k as int),
                    )));
                }
            },
            None => {},
        }
        i += 1;
    }
    proof {
        assert(strs_view(persisted@).skip(np as int).len() == 0);
    }
    let mut m: usize = 0;
    let ghost remv = strs_view(remaining@);
    let ghost outv0 = strs_view(out@);
    while m < remaining.len()
        invariant
            m <= remaining@.len(),
            strs_view(remaining@) == remv,
            strs_view(out@) =~= outv0 + remv.subrange(0, m as int),
        decreases remaining@.len() - m,
    {
        let ghost out_pre = strs_view(out@);
        let item = remaining[m].clone();
        out.push(item);
        proof {
            assert(strs_view(out@) =~= out_pre.push(remv[m as int]));
            assert(outv0 + remv.subrange(0, m + 1 as int) =~= (outv0 + remv.subrange(
                0,
                m as int,
            )).push(remv[m as int]));
        }
        m += 1;
    }
    proof {
        assert(remv.subrange(0, remv.len() as int) =~= remv);
        assert(strs_view(out@) =~= outv0 + remv);
    }
    out
}

/// The value to persist for the column order: the ids joined with
/// semicolons while the "remember order" preference is on, and the empty
/// string otherwise — turning the preference off clears the stored value.
pub fn persisted_column_order(remember: bool, columns: &Vec<String>) -> (r: String)
    ensures
        remember ==> r@ == spec_join_semi(strs_view(columns@)),
        !remember ==> r@ == Seq::<char>::empty(),
{
    if remember {
        join_semicolons(columns)
    } else {
        String::new()
    }
}

} // verus!
