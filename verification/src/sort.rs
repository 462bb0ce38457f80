//! Tree-local sorting of sibling nodes by a user-selected column, and the
//! restore decision for a persisted sort preference.
use vstd::prelude::*;

use crate::node::lemma_seq_views;
use crate::node::seq_views;
use crate::node::Node;
use crate::node::NodeView;

verus! {

use vstd::string::StrSliceExecFns;

broadcast use vstd::seq_lib::group_to_multiset_ensures;

/// The sortable columns of the table.
#[derive(Clone, Copy, PartialEq, Eq, Structural, Debug)]
pub enum SortColumn {
    Name,
    Pid,
    Cpu,
    Memory,
    SharedMemory,
    Drive,
    Network,
    Gpu,
    GpuMemory,
}

/// The direction of a sort.
#[derive(Clone, Copy, PartialEq, Eq, Structural, Debug)]
pub enum SortDirection {
    Ascending,
    Descending,
}

/// Lexicographic order on character sequences, by code point.
pub open spec fn lex_le(a: Seq<char>, b: Seq<char>) -> bool
    decreases a.len(),
{
    if a.len() == 0 {
        true
    } else if b.len() == 0 {
        false
    } else if (a[0] as u32) < (b[0] as u32) {
        true
    } else if (a[0] as u32) > (b[0] as u32) {
        false
    } else {
        lex_le(a.drop_first(), b.drop_first())
    }
}

pub proof fn lemma_lex_le_total(a: Seq<char>, b: Seq<char>)
    ensures
        lex_le(a, b) || lex_le(b, a),
    decreases a.len(),
{
    if a.len() > 0 && b.len() > 0 && (a[0] as u32) == (b[0] as u32) {
        lemma_lex_le_total(a.drop_first(), b.drop_first());
    }
}

pub proof fn lemma_lex_le_trans(a: Seq<char>, b: Seq<char>, c: Seq<char>)
    requires
        lex_le(a, b),
        lex_le(b, c),
    ensures
        lex_le(a, c),
    decreases a.len(),
{
    if a.len() == 0 {
    } else {
        if b.len() == 0 {
        } else if c.len() == 0 {
        } else {
            if (a[0] as u32) == (b[0] as u32) && (b[0] as u32) == (c[0] as u32) {
                lemma_lex_le_trans(a.drop_first(), b.drop_first(), c.drop_first());
            }
        }
    }
}

/// Compare two strings lexicographically by code point.
pub fn str_lex_le(a: &str, b: &str) -> (r: bool)
    ensures
        r == lex_le(a@, b@),
{
    let la = a.unicode_len();
    let lb = b.unicode_len();
    let mut i: usize = 0;
    proof {
        assert(a@.skip(0) =~= a@);
        assert(b@.skip(0) =~= b@);
    }
    while i < la && i < lb
        invariant
            la == a@.len(),
            lb == b@.len(),
            i <= la,
            i <= lb,
            lex_le(a@, b@) == lex_le(a@.skip(i as int), b@.skip(i as int)),
        decreases la - i,
    {
        let ca = a.get_char(i);
        let cb = b.get_char(i);
        proof {
            assert(a@.skip(i as int)[0] == a@[i as int]);
            assert(b@.skip(i as int)[0] == b@[i as int]);
            assert(a@.skip(i as int).drop_first() =~= a@.skip(i + 1));
            assert(b@.skip(i as int).drop_first() =~= b@.skip(i + 1));
        }
        if (ca as u32) < (cb as u32) {
            proof {
                assert(lex_le(a@.skip(i as int), b@.skip(i as int)));
            }
            return true;
        }
        if (ca as u32) > (cb as u32) {
            proof {
                assert(!lex_le(a@.skip(i as int), b@.skip(i as int)));
            }
            return false;
        }
        i += 1;
    }
    proof {
        if i == la {
            assert(a@.skip(i as int).len() == 0);
            assert(lex_le(a@.skip(i as int), b@.skip(i as int)));
        } else {
            assert(b@.skip(i as int).len() == 0);
            assert(a@.skip(i as int).len() > 0);
            assert(!lex_le(a@.skip(i as int), b@.skip(i as int)));
        }
    }
    i == la
}

/// The ascending key order of one column.
pub open spec fn spec_key_le(col: SortColumn, a: NodeView, b: NodeView) -> bool {
    match col {
        SortColumn::Name => lex_le(a.name, b.name),
        SortColumn::Pid => a.pid <= b.pid,
        SortColumn::Cpu => a.stats.cpu_usage <= b.stats.cpu_usage,
        SortColumn::Memory => a.stats.memory_usage <= b.stats.memory_usage,
        SortColumn::SharedMemory => a.stats.shared_memory_usage <= b.stats.shared_memory_usage,
        SortColumn::Drive => a.stats.disk_usage <= b.stats.disk_usage,
        SortColumn::Network => a.stats.network_usage <= b.stats.network_usage,
        SortColumn::Gpu => a.stats.gpu_usage <= b.stats.gpu_usage,
        SortColumn::GpuMemory => a.stats.gpu_memory_usage <= b.stats.gpu_memory_usage,
    }
}

/// The configured order: the column's key order, reversed when descending.
pub open spec fn spec_le_by(col: SortColumn, dir: SortDirection, a: NodeView, b: NodeView) -> bool {
    match dir {
        SortDirection::Ascending => spec_key_le(col, a, b),
        SortDirection::Descending => spec_key_le(col, b, a),
    }
}

/// Any two nodes are comparable.
pub proof fn lemma_le_by_total(col: SortColumn, dir: SortDirection, a: NodeView, b: NodeView)
    ensures
        spec_le_by(col, dir, a, b) || spec_le_by(col, dir, b, a),
{
    match col {
        SortColumn::Name => {
            lemma_lex_le_total(a.name, b.name);
        },
        _ => {},
    }
}

/// The configured order is transitive.
pub proof fn lemma_le_by_trans(
    col: SortColumn,
    dir: SortDirection,
    a: NodeView,
    b: NodeView,
    c: NodeView,
)
    requires
        spec_le_by(col, dir, a, b),
        spec_le_by(col, dir, b, c),
    ensures
        spec_le_by(col, dir, a, c),
{
    match col {
        SortColumn::Name => {
            match dir {
                SortDirection::Ascending => {
                    lemma_lex_le_trans(a.name, b.name, c.name);
                },
                SortDirection::Descending => {
                    lemma_lex_le_trans(c.name, b.name, a.name);
                },
            }
        },
        _ => {},
    }
}

/// Compare two nodes in the configured order.
pub fn le_by(col: SortColumn, dir: SortDirection, a: &Node, b: &Node) -> (r: bool)
    ensures
        r == spec_le_by(col, dir, a@, b@),
{
    let (x, y) = match dir {
        SortDirection::Ascending => (a, b),
        SortDirection::Descending => (b, a),
    };
    match col {
        SortColumn::Name => str_lex_le(x.name.as_str(), y.name.as_str()),
        SortColumn::Pid => x.pid <= y.pid,
        SortColumn::Cpu => x.stats.cpu_usage <= y.stats.cpu_usage,
        SortColumn::Memory => x.stats.memory_usage <= y.stats.memory_usage,
        SortColumn::SharedMemory => x.stats.shared_memory_usage <= y.stats.shared_memory_usage,
        SortColumn::Drive => x.stats.disk_usage <= y.stats.disk_usage,
        SortColumn::Network => x.stats.network_usage <= y.stats.network_usage,
        SortColumn::Gpu => x.stats.gpu_usage <= y.stats.gpu_usage,
        SortColumn::GpuMemory => x.stats.gpu_memory_usage <= y.stats.gpu_memory_usage,
    }
}

/// One level is sorted in the configured order.
pub open spec fn sorted_by(v: Seq<NodeView>, col: SortColumn, dir: SortDirection) -> bool {
    forall|a: int, b: int|
        #![trigger v[a], v[b]]
        0 <= a < b < v.len() ==> spec_le_by(col, dir, v[a], v[b])
}

/// Inserting an element into a sequence adds it to the multiset.
proof fn lemma_to_multiset_insert(s: Seq<Node>, i: int, x: Node)
    requires
        0 <= i <= s.len(),
    ensures
        s.insert(i, x).to_multiset() =~= s.to_multiset().insert(x),
{
    broadcast use vstd::seq_lib::group_to_multiset_ensures;

    let t = s.insert(i, x);
    assert(t.remove(i) =~= s);
    assert(t[i] == x);
    assert(t.remove(i).to_multiset() =~= t.to_multiset().remove(x));
    assert(t.to_multiset().contains(x)) by {
        assert(t.contains(x)) by {
            assert(t[i] == x);
        }
    }
    assert forall|y: Node| t.to_multiset().count(y) == s.to_multiset().insert(x).count(y) by {
        if y == x {
            assert(t.to_multiset().remove(x).count(x) == s.to_multiset().count(x));
        } else {
            assert(t.to_multiset().remove(x).count(y) == s.to_multiset().count(y));
        }
    }
}

/// Sort one sibling list in place by the selected column and direction.
/// The nodes themselves are untouched: the result holds exactly the same
/// nodes, reordered; section headers are never among siblings at the levels
/// this is applied to — the view pins them as top-level groups.
pub fn sort_nodes_by(list: &mut Vec<Node>, col: SortColumn, dir: SortDirection)
    ensures
        final(list)@.to_multiset() == old(list)@.to_multiset(),
        final(list)@.len() == old(list)@.len(),
        sorted_by(seq_views(final(list)@), col, dir),
{
    proof {
        broadcast use vstd::seq_lib::group_to_multiset_ensures;
    }
    let ghost olds = list@;
    let n0 = list.len();
    let mut out: Vec<Node> = Vec::new();
    let mut j: usize = 0;
    proof {
        assert(olds.subrange(0, 0).to_multiset() =~= Seq::<Node>::empty().to_multiset());
        assert(out@.to_multiset() =~= olds.subrange(0, 0).to_multiset());
        lemma_seq_views(out@);
    }
    while j < n0
        invariant
            j <= n0,
            n0 == olds.len(),
            list@.len() == n0 - j,
            list@ == olds.subrange(j as int, n0 as int),
            out@.len() == j,
            out@.to_multiset() == olds.subrange(0, j as int).to_multiset(),
            sorted_by(seq_views(out@), col, dir),
        decreases n0 - j,
    {
        proof {
            broadcast use vstd::seq_lib::group_to_multiset_ensures;
        }
        let ghost lpre = list@;
        let x = list.remove(0);
        proof {
            assert(x == lpre[0]);
            assert(x == olds[j as int]);
            assert(list@ =~= olds.subrange(j + 1, n0 as int));
        }
        // Find the first position whose node does not precede `x`; inserting
        // there keeps equal keys in arrival order.
        let ghost outv = seq_views(out@);
        proof {
            lemma_seq_views(out@);
        }
        let m = out.len();
        let mut k: usize = 0;
        while k < m && le_by(col, dir, &out[k], &x)
            invariant
                m == out@.len(),
                outv == seq_views(out@),
                outv.len() == m,
                forall|t: int| 0 <= t < m ==> #[trigger] outv[t] == out@[t]@,
                k <= m,
                forall|t: int| 0 <= t < k ==> spec_le_by(col, dir, #[trigger] outv[t], x@),
            decreases m - k,
        {
            k += 1;
        }
        let ghost prevec = out@;
        out.insert(k, x);
        proof {
            assert(out@ == prevec.insert(k as int, x));
            lemma_to_multiset_insert(prevec, k as int, x);
            assert(olds.subrange(0, j + 1 as int) =~= olds.subrange(0, j as int).push(x));
            assert(olds.subrange(0, j as int).push(x).to_multiset() =~= olds.subrange(
                0,
                j as int,
            ).to_multiset().insert(x));
            assert(out@.to_multiset() =~= olds.subrange(0, j + 1 as int).to_multiset());
            // Sortedness of the new level.
            lemma_seq_views(out@);
            let newv = seq_views(out@);
            assert(newv.len() == m + 1);
            assert forall|t: int| 0 <= t < newv.len() implies #[trigger] newv[t] == (if t < k {
                outv[t]
            } else if t == k {
                x@
            } else {
                outv[t - 1]
            }) by {
                assert(newv[t] == out@[t]@);
                if t < k {
                    assert(out@[t] == prevec[t]);
                } else if t > k {
                    assert(out@[t] == prevec[t - 1]);
                }
            }
            if k < m {
                assert(!spec_le_by(col, dir, outv[k as int], x@));
                lemma_le_by_total(col, dir, outv[k as int], x@);
                assert(spec_le_by(col, dir, x@, outv[k as int]));
            }
            assert forall|a: int, b: int|
                #![trigger newv[a], newv[b]]
                0 <= a < b < newv.len() implies spec_le_by(col, dir, newv[a], newv[b]) by {
                if a < k && b < k {
                    assert(spec_le_by(col, dir, outv[a], outv[b]));
                } else if a < k && b == k {
                    assert(spec_le_by(col, dir, outv[a], x@));
                } else if a < k && b > k {
                    assert(spec_le_by(col, dir, outv[a], outv[b - 1]));
                } else if a == k && b > k {
                    if b - 1 == k {
                        if k < m {
                            assert(spec_le_by(col, dir, x@, outv[k as int]));
                        }
                    } else {
                        assert(spec_le_by(col, dir, x@, outv[k as int]));
                        assert(spec_le_by(col, dir, outv[k as int], outv[b - 1]));
                        lemma_le_by_trans(col, dir, x@, outv[k as int], outv[b - 1]);
                    }
                    if b - 1 == k && k < m {
                        assert(spec_le_by(col, dir, x@, outv[b - 1]));
                    }
                } else if a > k && b > k {
                    assert(spec_le_by(col, dir, outv[a - 1], outv[b - 1]));
                }
            }
        }
        j += 1;
    }
    proof {
        assert(olds.subrange(0, n0 as int) =~= olds);
    }
    core::mem::swap(list, &mut out);
}

/// What a persisted sort preference asks the view to do on load.
#[derive(Clone, Copy, PartialEq, Eq, Structural, Debug)]
pub enum SortRestore {
    /// Leave the view in its natural order (preference off, or the
    /// persisted direction was the explicit "unset" value).
    Natural,
    /// Sort by the column at this index of the known-column list.
    Column(usize, SortDirection),
    /// The persisted column is unknown; apply no column but remember the
    /// direction (the fallback for an unrecognised direction code included).
    NoColumn(SortDirection),
}

/// The persisted code for an ascending sort.
pub const SORT_CODE_ASCENDING: i32 = 0;

/// The persisted code for a descending sort.
pub const SORT_CODE_DESCENDING: i32 = 1;

/// The persisted code that means no sort was set.
pub const SORT_CODE_UNSET: i32 = 255;

/// The first index of `cols` holding exactly `id`.
pub open spec fn spec_first_match(cols: Seq<Seq<char>>, id: Seq<char>) -> Option<int>
    decreases cols.len(),
{
    if cols.len() == 0 {
        None
    } else if cols[0] == id {
        Some(0int)
    } else {
        match spec_first_match(cols.drop_first(), id) {
            Some(i) => Some(i + 1),
            None => None,
        }
    }
}

/// The views of a list of strings.
pub open spec fn strs_view(s: Seq<String>) -> Seq<Seq<char>> {
    Seq::new(s.len(), |i: int| s[i]@)
}

/// What restoring the persisted sort preference must do: nothing when the
/// preference is off, when the direction code is the explicit "unset"
/// value, or when it is out of range or unknown — the view then keeps its
/// natural order instead of erroring; otherwise sort by the first known
/// column whose id equals the saved one (by no column when none does), in
/// the persisted direction.
pub open spec fn spec_restore_sort(
    remember: bool,
    saved: Seq<char>,
    code: int,
    cols: Seq<Seq<char>>,
) -> SortRestore {
    if !remember || (code != SORT_CODE_ASCENDING && code != SORT_CODE_DESCENDING) {
        SortRestore::Natural
    } else {
        let dir = if code == SORT_CODE_DESCENDING {
            SortDirection::Descending
        } else {
            SortDirection::Ascending
        };
        match spec_first_match(cols, saved) {
            Some(i) => SortRestore::Column(i as usize, dir),
            None => SortRestore::NoColumn(dir),
        }
    }
}

/// Decide what to do with a persisted sort preference on load.
pub fn restore_sort(remember: bool, saved: &String, code: i32, cols: &Vec<String>) -> (r:
    SortRestore)
    ensures
        r == spec_restore_sort(remember, saved@, code as int, strs_view(cols@)),
{
    if !remember || (code != SORT_CODE_ASCENDING && code != SORT_CODE_DESCENDING) {
        return SortRestore::Natural;
    }
    let dir = if code == SORT_CODE_DESCENDING {
        SortDirection::Descending
    } else {
        SortDirection::Ascending
    };
    let n = cols.len();
    let mut i: usize = 0;
    proof {
        assert(strs_view(cols@).skip(0) =~= strs_view(cols@));
    }
    while i < n
        invariant
            n == cols@.len(),
            i <= n,
            remember,
            code == SORT_CODE_ASCENDING || code == SORT_CODE_DESCENDING,
            dir == (if code == SORT_CODE_DESCENDING {
                SortDirection::Descending
            } else {
                SortDirection::Ascending
            }),
            spec_first_match(strs_view(cols@), saved@) == (match spec_first_match(
                strs_view(cols@).skip(i as int),
                saved@,
            ) {
                Some(z) => Some(z + i),
                None => None,
            }),
        decreases n - i,
    {
        let ghost suf = strs_view(cols@).skip(i as int);
        proof {
            assert(suf[0] == cols@[i as int]@);
            assert(suf.drop_first() =~= strs_view(cols@).skip(i + 1));
        }
        if cols[i].eq(saved) {
            proof {
                assert(spec_first_match(suf, saved@) == Some(0int));
            }
            return SortRestore::Column(i, dir);
        }
        i += 1;
    }
    proof {
        assert(strs_view(cols@).skip(n as int).len() == 0);
    }
    SortRestore::NoColumn(dir)
}

/// The values to persist for the sort preference: the current column id
/// and direction code while "remember sorting" is on; turning the
/// preference off clears the stored column id and resets the direction
/// code to ascending.
pub fn persisted_sort_values(remember: bool, column_id: &String, code: i32) -> (r: (String, i32))
    ensures
        remember ==> r.0@ == column_id@ && r.1 == code,
        !remember ==> r.0@ == Seq::<char>::empty() && r.1 == SORT_CODE_ASCENDING,
{
    if remember {
        (column_id.clone(), code)
    } else {
        (String::new(), SORT_CODE_ASCENDING)
    }
}

} // verus!
