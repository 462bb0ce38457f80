//! Grouping heuristics: which pids represent an app, what a process is
//! called on screen, and which descendant of a sandbox launcher is the
//! actionable target.
use vstd::prelude::*;

use crate::node::Node;
use crate::snapshot::AppRecord;
use crate::snapshot::ProcessTable;
use crate::text::after_last;
use crate::text::after_last_char;
use crate::text::first_token;
use crate::text::first_token_str;
use crate::text::spec_trim;
use crate::text::strip_colon;
use crate::text::strip_colon_str;
use crate::text::trim_str;

verus! {

use vstd::string::StrSliceExecFns;
use vstd::string::StringExecFns;

/// Membership test on a pid list.
pub fn pids_contain(v: &Vec<u32>, x: u32) -> (b: bool)
    ensures
        b == v@.contains(x),
{
    let n = v.len();
    let mut i: usize = 0;
    while i < n
        invariant
            i <= n,
            n == v@.len(),
            forall|k: int| 0 <= k < i ==> v@[k] != x,
        decreases n - i,
    {
        if v[i] == x {
            assert(v@[i as int] == x);
            return true;
        }
        i += 1;
    }
    proof {
        if v@.contains(x) {
            let k = choose|k: int| 0 <= k < v@.len() && v@[k] == x;
        }
    }
    false
}

/// The display name of a process, from its executable path, argument list
/// and raw name: an empty executable path defers to the first argument
/// token (path components and one trailing colon stripped, whitespace
/// trimmed), an executable whose basename bears the wine prefix defers to
/// the first argument with reversed-slash and forward-slash components
/// stripped, and anything else is the executable's trimmed basename.
pub open spec fn spec_display_name(exe: Seq<char>, cmd: Seq<Seq<char>>, raw: Seq<char>) -> Seq<
    char,
> {
    if exe.len() == 0 {
        if cmd.len() == 0 {
            spec_trim(raw)
        } else {
            let base = match first_token(cmd[0]) {
                Some(tok) => after_last(tok, '/'),
                None => raw,
            };
            spec_trim(strip_colon(base))
        }
    } else {
        let exe_name = after_last(exe, '/');
        if exe_name.len() >= 4 && exe_name.subrange(0, 4) == "wine"@ {
            if cmd.len() == 0 {
                spec_trim(raw)
            } else {
                spec_trim(after_last(after_last(cmd[0], '\\'), '/'))
            }
        } else {
            spec_trim(exe_name)
        }
    }
}

fn starts_with_wine(s: &str) -> (b: bool)
    ensures
        b == (s@.len() >= 4 && s@.subrange(0, 4) == "wine"@),
{
    proof {
        reveal_strlit("wine");
    }
    let n = s.unicode_len();
    if n < 4 {
        return false;
    }
    let b = s.get_char(0) == 'w' && s.get_char(1) == 'i' && s.get_char(2) == 'n' && s.get_char(3)
        == 'e';
    proof {
        assert(s@.subrange(0, 4)[0] == s@[0]);
        assert(s@.subrange(0, 4)[1] == s@[1]);
        assert(s@.subrange(0, 4)[2] == s@[2]);
        assert(s@.subrange(0, 4)[3] == s@[3]);
        if b {
            assert(s@.subrange(0, 4) =~= "wine"@);
        }
    }
    b
}

/// Derive the on-screen name of a process, per the rules of
/// `spec_display_name`.
pub fn display_name(exe: &str, cmd: &Vec<String>, raw: &str) -> (r: String)
    ensures
        r@ == spec_display_name(exe@, cmd.deep_view(), raw@),
{
    proof {
        assert(cmd.deep_view().len() == cmd@.len());
    }
    if exe.unicode_len() == 0 {
        if cmd.len() == 0 {
            let r = trim_str(raw).to_owned();
            return r;
        }
        let first = cmd[0].as_str();
        proof {
            assert(cmd.deep_view()[0] == cmd@[0]@);
        }
        let base = match first_token_str(first) {
            Some(tok) => after_last_char(tok, '/'),
            None => raw,
        };
        let r = trim_str(strip_colon_str(base)).to_owned();
        r
    } else {
        let exe_name = after_last_char(exe, '/');
        if starts_with_wine(exe_name) {
            if cmd.len() == 0 {
                let r = trim_str(raw).to_owned();
                r
            } else {
                let first = cmd[0].as_str();
                proof {
                    assert(cmd.deep_view()[0] == cmd@[0]@);
                }
                let r = trim_str(after_last_char(after_last_char(first, '\\'), '/')).to_owned();
                r
            }
        } else {
            let r = trim_str(exe_name).to_owned();
            r
        }
    }
}

/// A pid of the app that is listed as a child of another pid of the same
/// app that the snapshot knows.
pub open spec fn spec_is_secondary(p: u32, app_pids: Seq<u32>, t: ProcessTable) -> bool {
    exists|q: u32|
        #[trigger] app_pids.contains(q) && t.spec_has(q) && t.spec_get(q).children@.contains(p)
}

fn is_secondary(p: u32, app_pids: &Vec<u32>, t: &ProcessTable) -> (b: bool)
    requires
        t.wf(),
    ensures
        b == spec_is_secondary(p, app_pids@, *t),
{
    let n = app_pids.len();
    let mut i: usize = 0;
    while i < n
        invariant
            t.wf(),
            i <= n,
            n == app_pids@.len(),
            forall|k: int|
                0 <= k < i ==> !(t.spec_has(#[trigger] app_pids@[k]) && t.spec_get(
                    app_pids@[k],
                ).children@.contains(p)),
        decreases n - i,
    {
        let q = app_pids[i];
        match t.get(q) {
            Some(rec) => {
                if pids_contain(&rec.children, p) {
                    assert(app_pids@.contains(q));
                    return true;
                }
            },
            None => {},
        }
        i += 1;
    }
    proof {
        if spec_is_secondary(p, app_pids@, *t) {
            let q = choose|q: u32|
                #[trigger] app_pids@.contains(q) && t.spec_has(q) && t.spec_get(
                    q,
                ).children@.contains(p);
            let k = choose|k: int| 0 <= k < app_pids@.len() && app_pids@[k] == q;
        }
    }
    false
}

/// The app pids that are not secondary, in their original order, first
/// occurrence only.
pub open spec fn spec_primary_base(pids: Seq<u32>, all: Seq<u32>, t: ProcessTable) -> Seq<u32>
    decreases pids.len(),
{
    if pids.len() == 0 {
        Seq::empty()
    } else {
        let rest = spec_primary_base(pids.drop_last(), all, t);
        let p = pids.last();
        if !spec_is_secondary(p, all, t) && !pids.drop_last().contains(p) {
            rest.push(p)
        } else {
            rest
        }
    }
}

/// The fallback pick: scanning the app pids in order, the first one the
/// snapshot knows that has children or is the last of the list.
pub open spec fn spec_fallback(pids: Seq<u32>, t: ProcessTable) -> Option<u32>
    decreases pids.len(),
{
    if pids.len() == 0 {
        None
    } else if t.spec_has(pids[0]) && (t.spec_get(pids[0]).children@.len() > 0 || pids.len()
        == 1) {
        Some(pids[0])
    } else {
        spec_fallback(pids.drop_first(), t)
    }
}

/// The primary pids of an app: its pids minus those that are children of
/// another of its pids; when that leaves nothing, the fallback pick; when
/// even that fails, empty — the caller treats an empty result as "no
/// representable process" and reports, it never fabricates a pid.
pub open spec fn spec_primary_processes(app: AppRecord, t: ProcessTable) -> Seq<u32> {
    let base = spec_primary_base(app.pids@, app.pids@, t);
    if base.len() > 0 {
        base
    } else {
        match spec_fallback(app.pids@, t) {
            Some(p) => seq![p],
            None => Seq::empty(),
        }
    }
}

fn prefix_contains(v: &Vec<u32>, upto: usize, x: u32) -> (b: bool)
    requires
        upto <= v@.len(),
    ensures
        b == v@.subrange(0, upto as int).contains(x),
{
    let mut i: usize = 0;
    while i < upto
        invariant
            upto <= v@.len(),
            i <= upto,
            forall|k: int| 0 <= k < i ==> v@[k] != x,
        decreases upto - i,
    {
        if v[i] == x {
            assert(v@.subrange(0, upto as int)[i as int] == x);
            return true;
        }
        i += 1;
    }
    proof {
        if v@.subrange(0, upto as int).contains(x) {
            let k = choose|k: int| 0 <= k < upto && v@.subrange(0, upto as int)[k] == x;
            assert(v@[k] == x);
        }
    }
    false
}

/// Resolve the set of primary process pids that represent `app`.
pub fn primary_processes(app: &AppRecord, t: &ProcessTable) -> (r: Vec<u32>)
    requires
        t.wf(),
    ensures
        r@ == spec_primary_processes(*app, *t),
{
    let n = app.pids.len();
    let mut base: Vec<u32> = Vec::new();
    let mut i: usize = 0;
    while i < n
        invariant
            t.wf(),
            i <= n,
            n == app.pids@.len(),
            base@ == spec_primary_base(app.pids@.subrange(0, i as int), app.pids@, *t),
        decreases n - i,
    {
        let p = app.pids[i];
        let ghost pre = app.pids@.subrange(0, i as int);
        let ghost pre1 = app.pids@.subrange(0, i + 1 as int);
        proof {
            assert(pre1.drop_last() =~= pre);
            assert(pre1.last() == app.pids@[i as int]);
        }
        if !is_secondary(p, &app.pids, t) && !prefix_contains(&app.pids, i, p) {
            base.push(p);
        }
        i += 1;
    }
    proof {
        assert(app.pids@.subrange(0, n as int) =~= app.pids@);
    }
    if base.len() > 0 {
        return base;
    }
    let mut j: usize = 0;
    while j < n
        invariant
            t.wf(),
            j <= n,
            n == app.pids@.len(),
            base@ == spec_primary_base(app.pids@, app.pids@, *t),
            base@.len() == 0,
            spec_fallback(app.pids@, *t) == spec_fallback(
                app.pids@.subrange(j as int, n as int),
                *t,
            ),
        decreases n - j,
    {
        let ghost suf = app.pids@.subrange(j as int, n as int);
        proof {
            assert(suf[0] == app.pids@[j as int]);
            assert(suf.drop_first() =~= app.pids@.subrange(j + 1, n as int));
        }
        let p = app.pids[j];
        match t.get(p) {
            Some(rec) => {
                if rec.children.len() > 0 || j == n - 1 {
                    let mut r: Vec<u32> = Vec::new();
                    r.push(p);
                    proof {
                        assert(r@ =~= seq![p]);
                    }
                    return r;
                }
            },
            None => {},
        }
        j += 1;
    }
    proof {
        assert(app.pids@.subrange(n as int, n as int) =~= Seq::<u32>::empty());
        assert(spec_fallback(app.pids@, *t) == None::<u32>);
    }
    let r: Vec<u32> = Vec::new();
    proof {
        assert(r@ =~= Seq::<u32>::empty());
    }
    r
}

/// Primary-process resolution is a function of the app and the process
/// table alone: any two resolutions on the same input yield the same pids.
pub proof fn lemma_primary_processes_idempotent(
    r1: Seq<u32>,
    r2: Seq<u32>,
    app: AppRecord,
    t: ProcessTable,
)
    requires
        r1 == spec_primary_processes(app, t),
        r2 == spec_primary_processes(app, t),
    ensures
        r1 == r2,
{
}

/// The nearest descendant of `n` not named like the sandbox wrapper,
/// depth-first, first match wins; `n` itself when it is no wrapper.
pub open spec fn spec_stoppable(n: Node) -> Option<Node>
    decreases n,
{
    if n.name@ != "bwrap"@ {
        Some(n)
    } else {
        spec_stoppable_in(n.children@)
    }
}

pub open spec fn spec_stoppable_in(s: Seq<Node>) -> Option<Node>
    decreases s,
{
    if s.len() == 0 {
        None
    } else {
        match spec_stoppable(s[0]) {
            Some(x) => Some(x),
            None => spec_stoppable_in(s.drop_first()),
        }
    }
}

/// Unwrap a sandbox launcher to the process that can actually be signalled.
pub fn find_stoppable_child(n: &Node) -> (r: Option<&Node>)
    ensures
        match r {
            Some(x) => spec_stoppable(*n) == Some(*x),
            None => spec_stoppable(*n) == None::<Node>,
        },
    decreases *n,
{
    let wrapper = String::from_str("bwrap");
    proof {
        reveal_strlit("bwrap");
    }
    if !n.name.eq(&wrapper) {
        return Some(n);
    }
    let k = n.children.len();
    proof {
        assert(n.children@.subrange(0, k as int) =~= n.children@);
    }
    let mut i: usize = 0;
    while i < k
        invariant
            k == n.children@.len(),
            i <= k,
            n.name@ == "bwrap"@,
            spec_stoppable_in(n.children@) == spec_stoppable_in(
                n.children@.subrange(i as int, k as int),
            ),
        decreases k - i,
    {
        let ghost suf = n.children@.subrange(i as int, k as int);
        proof {
            assert(suf[0] == n.children@[i as int]);
            assert(suf.drop_first() =~= n.children@.subrange(i + 1, k as int));
        }
        match find_stoppable_child(&n.children[i]) {
            Some(x) => {
                return Some(x);
            },
            None => {},
        }
        i += 1;
    }
    proof {
        assert(n.children@.subrange(k as int, k as int) =~= Seq::<Node>::empty());
    }
    None
}

/// The pid each child of a grouped app entry resolves to for actions:
/// unwrap each child, keep those that resolve.
pub open spec fn spec_app_pids(s: Seq<Node>) -> Seq<u32>
    decreases s,
{
    if s.len() == 0 {
        Seq::empty()
    } else {
        let rest = spec_app_pids(s.drop_first());
        match spec_stoppable(s[0]) {
            Some(x) => seq![x.pid] + rest,
            None => rest,
        }
    }
}

/// Resolve the actionable pids of a grouped app node.
pub fn app_pids(app_node: &Node) -> (r: Vec<u32>)
    ensures
        r@ == spec_app_pids(app_node.children@),
{
    let k = app_node.children.len();
    let mut out: Vec<u32> = Vec::new();
    let mut i: usize = k;
    while i > 0
        invariant
            k == app_node.children@.len(),
            i <= k,
            out@ == spec_app_pids(app_node.children@.subrange(i as int, k as int)),
        decreases i,
    {
        i -= 1;
        let ghost suf = app_node.children@.subrange(i as int, k as int);
        proof {
            assert(suf[0] == app_node.children@[i as int]);
            assert(suf.drop_first() =~= app_node.children@.subrange(i + 1, k as int));
        }
        match find_stoppable_child(&app_node.children[i]) {
            Some(x) => {
                let mut next: Vec<u32> = Vec::new();
                next.push(x.pid);
                let mut m: usize = 0;
                let ghost outv = out@;
                while m < out.len()
                    invariant
                        m <= out@.len(),
                        out@ == outv,
                        next@ == seq![x.pid] + outv.subrange(0, m as int),
                    decreases out@.len() - m,
                {
                    let v = out[m];
                    next.push(v);
                    proof {
                        assert(next@ =~= seq![x.pid] + outv.subrange(0, m + 1 as int));
                    }
                    m += 1;
                }
                proof {
                    assert(outv.subrange(0, outv.len() as int) =~= outv);
                }
                out = next;
            },
            None => {},
        }
    }
    proof {
        assert(app_node.children@.subrange(0, k as int) =~= app_node.children@);
    }
    out
}

} // verus!
