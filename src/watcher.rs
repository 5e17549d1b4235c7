//! The process table, the reduction of an ancestry into a tree label, and
//! the decisions taken on exec and exit events.
use std::collections::HashMap;
use vstd::prelude::*;
use crate::info::{Process, ENTROPY_MAX};
use crate::info::{label_of, lemma_label_plain};
use crate::text::{lemma_last_index_after, no_char, pieces, str_eq, string_views};

verus! {

broadcast use vstd::std_specs::hash::group_hash_axioms;

/// The bit pattern of the single-precision value nearest to 22/1000: a tree
/// whose least path entropy lies below it is marked `random`.
pub const RANDOM_THRESHOLD: u32 = 0x3cb4_3958;

/// The descriptors met walking from `curr` to its ancestors, leaf first:
/// at most `fuel` of them, ending at pid 0 or at a pid the table lacks.
pub open spec fn hops(t: Map<i32, Process>, curr: i32, fuel: nat) -> Seq<Process>
    decreases fuel,
{
    if fuel == 0 || curr == 0 || !t.contains_key(curr) {
        seq![]
    } else {
        seq![t[curr]] + hops(t, t[curr].ppid, (fuel - 1) as nat)
    }
}

/// The walk of a tree: at most as many hops as the table holds, which is
/// the whole ancestry where it has no cycle.
pub open spec fn walk(t: Map<i32, Process>, pid: i32) -> Seq<Process> {
    hops(t, pid, t.len())
}

pub open spec fn labels(hs: Seq<Process>) -> Seq<Seq<char>> {
    hs.map_values(|p: Process| p.spec_label())
}

/// Labels in walk order, dropping each one equal to the label kept last and
/// each `systemd`.
pub open spec fn collapse(ls: Seq<Seq<char>>) -> Seq<Seq<char>>
    decreases ls.len(),
{
    if ls.len() == 0 {
        seq![]
    } else {
        let acc = collapse(ls.drop_last());
        let l = ls.last();
        if (acc.len() > 0 && acc.last() == l) || l == "systemd"@ {
            acc
        } else {
            acc.push(l)
        }
    }
}

/// The least path entropy over the hops, `ENTROPY_MAX` for none.
pub open spec fn hops_entropy(hs: Seq<Process>) -> u32
    decreases hs.len(),
{
    if hs.len() == 0 {
        ENTROPY_MAX
    } else {
        let rest = hops_entropy(hs.drop_last());
        if hs.last().spec_entropy() < rest {
            hs.last().spec_entropy()
        } else {
            rest
        }
    }
}

/// Index of the last `sshd` label, -1 for none.
pub open spec fn last_sshd(acc: Seq<Seq<char>>) -> int
    decreases acc.len(),
{
    if acc.len() == 0 {
        -1
    } else if acc.last() == "sshd"@ {
        acc.len() - 1
    } else {
        last_sshd(acc.drop_last())
    }
}

/// The user named in an ssh hop: the owner of the leaf process.
pub open spec fn leaf_user(t: Map<i32, Process>, pid: i32) -> Seq<char> {
    if t.contains_key(pid) {
        t[pid].spec_user()
    } else {
        "unknown"@
    }
}

/// The collapsed labels with the last `sshd` replaced by `ssh:<user>`.
pub open spec fn tagged(acc: Seq<Seq<char>>, user: Seq<char>) -> Seq<Seq<char>> {
    if last_sshd(acc) >= 0 {
        acc.update(last_sshd(acc), "ssh:"@ + user)
    } else {
        acc
    }
}

/// The labels with `random` put past the leaf where the entropy is below
/// the threshold, so that it is written last.
pub open spec fn marked(ls: Seq<Seq<char>>, entropy: u32) -> Seq<Seq<char>> {
    if entropy < RANDOM_THRESHOLD {
        seq!["random"@] + ls
    } else {
        ls
    }
}

/// The labels of a tree, leaf first.
pub open spec fn tree_labels(t: Map<i32, Process>, pid: i32) -> Seq<Seq<char>> {
    marked(tagged(collapse(labels(walk(t, pid))), leaf_user(t, pid)), hops_entropy(walk(t, pid)))
}

/// `/` before each label, the last label first.
pub open spec fn rooted(ls: Seq<Seq<char>>) -> Seq<char>
    decreases ls.len(),
{
    if ls.len() == 0 {
        seq![]
    } else {
        rooted(ls.drop_first()) + seq!['/'] + ls[0]
    }
}

/// The text of a tree: its labels, oldest ancestor first, each after a `/`;
/// a lone `/` for no label.
pub open spec fn render(ls: Seq<Seq<char>>) -> Seq<char> {
    if ls.len() == 0 {
        seq!['/']
    } else {
        rooted(ls)
    }
}

/// The tree label of `pid` in table `t`.
pub open spec fn chain(t: Map<i32, Process>, pid: i32) -> Seq<char> {
    render(tree_labels(t, pid))
}

pub proof fn lemma_last_sshd_bounds(acc: Seq<Seq<char>>)
    ensures
        -1 <= last_sshd(acc) < acc.len(),
        last_sshd(acc) >= 0 ==> acc[last_sshd(acc)] == "sshd"@,
    decreases acc.len(),
{
    if acc.len() > 0 && acc.last() != "sshd"@ {
        lemma_last_sshd_bounds(acc.drop_last());
    }
}

/// Writes the labels as a tree text.
fn render_labels(ls: &Vec<String>) -> (r: String)
    ensures
        r@ == render(string_views(ls@)),
{
    let ghost sv = string_views(ls@);
    if ls.len() == 0 {
        let r = String::from_str("/");
        proof {
            reveal_strlit("/");
        }
        assert(r@ =~= seq!['/']);
        return r;
    }
    let mut out = String::new();
    let mut i: usize = ls.len();
    assert(sv.subrange(ls@.len() as int, ls@.len() as int) =~= Seq::<Seq<char>>::empty());
    while i > 0
        invariant
            sv == string_views(ls@),
            i <= ls@.len(),
            out@ == rooted(sv.subrange(i as int, ls@.len() as int)),
        decreases i,
    {
        let ghost before = out@;
        proof {
            reveal_strlit("/");
        }
        out.append("/");
        out.append(ls[i - 1].as_str());
        assert(sv[i - 1] == ls@[i - 1]@);
        assert(sv.subrange(i - 1, ls@.len() as int).drop_first() =~= sv.subrange(i as int, ls@.len() as int));
        assert(out@ =~= before + seq!['/'] + sv[i - 1]);
        i = i - 1;
    }
    assert(sv.subrange(0, ls@.len() as int) =~= sv);
    out
}

/// Compacts the ancestry of `pid` into its tree label.
pub fn tree(pids: &HashMap<i32, Process>, pid: i32) -> (r: String)
    ensures
        r@ == chain(pids@, pid),
{
    let ghost t = pids@;
    let mut fuel: usize = pids.len();
    let mut curr: i32 = pid;
    let mut tree: Vec<String> = Vec::new();
    let mut sshd_pos: Option<usize> = None;
    let mut tree_entropy: u32 = ENTROPY_MAX;
    let ghost mut visited: Seq<Process> = seq![];
    assert(walk(t, pid) =~= visited + hops(t, curr, fuel as nat));
    while fuel > 0 && curr != 0
        invariant
            t == pids@,
            walk(t, pid) == visited + hops(t, curr, fuel as nat),
            string_views(tree@) == collapse(labels(visited)),
            tree_entropy == hops_entropy(visited),
            match sshd_pos {
                Some(k) => k as int == last_sshd(collapse(labels(visited))),
                None => last_sshd(collapse(labels(visited))) == -1,
            },
        decreases fuel,
    {
        match pids.get(&curr) {
            Some(prc) => {
                let ghost old_visited = visited;
                let ghost old_tree = string_views(tree@);
                proof {
                    visited = visited.push(*prc);
                    assert(labels(visited).drop_last() =~= labels(old_visited));
                    assert(labels(visited).last() == prc.spec_label());
                    assert(visited.drop_last() =~= old_visited);
                    assert(visited + hops(t, prc.ppid, (fuel - 1) as nat)
                        =~= old_visited + hops(t, curr, fuel as nat));
                }
                let label = prc.label();
                let e = prc.entropy();
                if e < tree_entropy {
                    tree_entropy = e;
                }
                curr = prc.ppid;
                fuel = fuel - 1;
                let n = tree.len();
                let repeated = n > 0 && str_eq(tree[n - 1].as_str(), label.as_str());
                proof {
                    if n > 0 {
                        assert(old_tree.last() == tree@[n - 1]@);
                    }
                }
                let noise = str_eq(label.as_str(), "systemd");
                if !repeated && !noise {
                    if str_eq(label.as_str(), "sshd") {
                        sshd_pos = Some(n);
                    }
                    tree.push(label);
                    proof {
                        assert(string_views(tree@) =~= old_tree.push(label@));
                        assert(string_views(tree@).drop_last() =~= old_tree);
                    }
                }
            },
            None => {
                fuel = 0;
            },
        }
    }
    assert(visited + hops(t, curr, fuel as nat) =~= visited);
    let ghost acc = string_views(tree@);
    proof {
        lemma_last_sshd_bounds(acc);
    }
    match sshd_pos {
        Some(k) => {
            let username = match pids.get(&pid) {
                Some(p) => p.user(),
                None => "unknown",
            };
            let tag = String::from_str("ssh:").concat(username);
            tree.set(k, tag);
        },
        None => {},
    }
    let ghost user_tagged = string_views(tree@);
    assert(user_tagged =~= tagged(acc, leaf_user(t, pid)));
    if tree_entropy < RANDOM_THRESHOLD {
        tree.insert(0, String::from_str("random"));
    }
    assert(string_views(tree@) =~= marked(user_tagged, tree_entropy));
    render_labels(&tree)
}

proof fn lemma_collapse_shape(ls: Seq<Seq<char>>)
    ensures
        forall|k: int|
            0 <= k < collapse(ls).len() - 1 ==> #[trigger] collapse(ls)[k] != collapse(ls)[k + 1],
        forall|k: int| 0 <= k < collapse(ls).len() ==> #[trigger] collapse(ls)[k] != "systemd"@,
    decreases ls.len(),
{
    if ls.len() > 0 {
        lemma_collapse_shape(ls.drop_last());
        let acc = collapse(ls.drop_last());
        let c = collapse(ls);
        assert forall|k: int| 0 <= k < c.len() - 1 implies #[trigger] c[k] != c[k + 1] by {
            if k + 1 < acc.len() {
                assert(c[k] == acc[k] && c[k + 1] == acc[k + 1]);
            }
        }
        assert forall|k: int| 0 <= k < c.len() implies #[trigger] c[k] != "systemd"@ by {
            if k < acc.len() {
                assert(c[k] == acc[k]);
            }
        }
    }
}

proof fn lemma_last_sshd_found(acc: Seq<Seq<char>>, j: int)
    requires
        0 <= j < acc.len(),
        acc[j] == "sshd"@,
    ensures
        last_sshd(acc) >= j,
    decreases acc.len(),
{
    if acc.last() != "sshd"@ {
        lemma_last_sshd_found(acc.drop_last(), j);
    }
}

/// Two neighbouring labels that the walk keeps always differ: consecutive
/// hops that reduce to the same label are kept once.
pub proof fn lemma_repeats_collapsed(t: Map<i32, Process>, pid: i32)
    ensures
        forall|k: int|
            0 <= k < collapse(labels(walk(t, pid))).len() - 1 ==> #[trigger] collapse(
                labels(walk(t, pid)),
            )[k] != collapse(labels(walk(t, pid)))[k + 1],
{
    lemma_collapse_shape(labels(walk(t, pid)));
}

/// No label of a tree is `systemd`.
pub proof fn lemma_no_systemd(t: Map<i32, Process>, pid: i32)
    ensures
        forall|k: int|
            0 <= k < tree_labels(t, pid).len() ==> #[trigger] tree_labels(t, pid)[k] != "systemd"@,
{
    let acc = collapse(labels(walk(t, pid)));
    let user = leaf_user(t, pid);
    let ut = tagged(acc, user);
    let ls = tree_labels(t, pid);
    lemma_collapse_shape(labels(walk(t, pid)));
    lemma_last_sshd_bounds(acc);
    reveal_strlit("systemd");
    reveal_strlit("random");
    reveal_strlit("ssh:");
    assert(("ssh:"@ + user)[1] != "systemd"@[1]);
    assert forall|k: int| 0 <= k < ut.len() implies #[trigger] ut[k] != "systemd"@ by {
        if k != last_sshd(acc) {
            assert(ut[k] == acc[k]);
        }
    }
    assert forall|k: int| 0 <= k < ls.len() implies #[trigger] ls[k] != "systemd"@ by {
        if hops_entropy(walk(t, pid)) < RANDOM_THRESHOLD && k > 0 {
            assert(ls[k] == ut[k - 1]);
        }
    }
}

/// Where the walk keeps an `sshd` label, the last one kept is replaced by
/// `ssh:` and the name of the owner of the process the walk started from.
pub proof fn lemma_ssh_tagged(t: Map<i32, Process>, pid: i32)
    ensures
        ({
            let acc = collapse(labels(walk(t, pid)));
            let ls = tree_labels(t, pid);
            let shift: int = if hops_entropy(walk(t, pid)) < RANDOM_THRESHOLD {
                1
            } else {
                0
            };
            acc.contains("sshd"@) ==> {
                &&& 0 <= last_sshd(acc) < acc.len()
                &&& ls[last_sshd(acc) + shift] == "ssh:"@ + leaf_user(t, pid)
                &&& leaf_user(t, pid) == (if t.contains_key(pid) {
                    t[pid].spec_user()
                } else {
                    "unknown"@
                })
            }
        }),
{
    let acc = collapse(labels(walk(t, pid)));
    lemma_last_sshd_bounds(acc);
    if acc.contains("sshd"@) {
        let j = choose|j: int| 0 <= j < acc.len() && acc[j] == "sshd"@;
        lemma_last_sshd_found(acc, j);
    }
}

/// A tree whose least path entropy lies below the threshold ends in
/// `random`; any other has no label beyond those of its hops.
pub proof fn lemma_random_marker(t: Map<i32, Process>, pid: i32)
    ensures
        ({
            let acc = collapse(labels(walk(t, pid)));
            let ls = tree_labels(t, pid);
            &&& hops_entropy(walk(t, pid)) < RANDOM_THRESHOLD ==> ls.len() == acc.len() + 1
                && ls[0] == "random"@
            &&& hops_entropy(walk(t, pid)) >= RANDOM_THRESHOLD ==> ls.len() == acc.len()
        }),
{
    lemma_last_sshd_bounds(collapse(labels(walk(t, pid))));
}

proof fn lemma_hops_entropy_below(hs: Seq<Process>, i: int)
    requires
        0 <= i < hs.len(),
    ensures
        hops_entropy(hs) <= hs[i].spec_entropy(),
    decreases hs.len(),
{
    if i < hs.len() - 1 {
        lemma_hops_entropy_below(hs.drop_last(), i);
    }
}

proof fn lemma_hops_entropy_above(hs: Seq<Process>, x: u32)
    requires
        x <= ENTROPY_MAX,
        forall|i: int| 0 <= i < hs.len() ==> #[trigger] hs[i].spec_entropy() >= x,
    ensures
        hops_entropy(hs) >= x,
    decreases hs.len(),
{
    if hs.len() > 0 {
        lemma_hops_entropy_above(hs.drop_last(), x);
    }
}

/// A tree that passes through a hop whose path entropy lies below the
/// threshold has a text that ends in `/random`.
pub proof fn lemma_random_suffix(t: Map<i32, Process>, pid: i32, i: int)
    requires
        0 <= i < walk(t, pid).len(),
        walk(t, pid)[i].spec_entropy() < RANDOM_THRESHOLD,
    ensures
        chain(t, pid).len() >= 7,
        chain(t, pid).subrange(chain(t, pid).len() - 7, chain(t, pid).len() as int) == "/random"@,
{
    lemma_hops_entropy_below(walk(t, pid), i);
    lemma_random_marker(t, pid);
    let ls = tree_labels(t, pid);
    let c = chain(t, pid);
    reveal_strlit("random");
    reveal_strlit("/random");
    assert(c == rooted(ls.drop_first()) + seq!['/'] + "random"@);
    assert(c.subrange(c.len() - 7, c.len() as int) =~= "/random"@);
}

/// A tree of the process `pid` itself, tracked with a path entropy below
/// the threshold, ends in `/random`.
pub proof fn lemma_random_leaf(t: Map<i32, Process>, pid: i32)
    requires
        t.dom().finite(),
        pid != 0,
        t.contains_key(pid),
        t[pid].spec_entropy() < RANDOM_THRESHOLD,
    ensures
        chain(t, pid).subrange(chain(t, pid).len() - 7, chain(t, pid).len() as int) == "/random"@,
{
    vstd::set_lib::lemma_set_empty_equivalency_len(t.dom());
    assert(t.dom().contains(pid));
    assert(walk(t, pid)[0] == t[pid]);
    lemma_random_suffix(t, pid, 0);
}

/// Where no hop's path entropy lies below the threshold, the tree carries
/// no `random` mark: its labels are the kept labels of its hops, tagged.
pub proof fn lemma_no_random(t: Map<i32, Process>, pid: i32)
    requires
        forall|i: int|
            0 <= i < walk(t, pid).len() ==> #[trigger] walk(t, pid)[i].spec_entropy()
                >= RANDOM_THRESHOLD,
    ensures
        tree_labels(t, pid) == tagged(collapse(labels(walk(t, pid))), leaf_user(t, pid)),
{
    lemma_hops_entropy_above(walk(t, pid), RANDOM_THRESHOLD);
}

/// Whether no label holds `/`.
pub open spec fn plain(ls: Seq<Seq<char>>) -> bool {
    forall|i: int, m: int| 0 <= i < ls.len() && 0 <= m < ls[i].len() ==> #[trigger] ls[i][m] != '/'
}

proof fn lemma_collapse_plain(ls: Seq<Seq<char>>)
    requires
        forall|i: int| 0 <= i < ls.len() ==> no_char(#[trigger] ls[i], '/'),
    ensures
        plain(collapse(ls)),
    decreases ls.len(),
{
    if ls.len() > 0 {
        assert forall|i: int| 0 <= i < ls.drop_last().len() implies no_char(
            #[trigger] ls.drop_last()[i],
            '/',
        ) by {
            assert(ls.drop_last()[i] == ls[i]);
        }
        lemma_collapse_plain(ls.drop_last());
        assert(no_char(ls[ls.len() - 1], '/'));
    }
}

/// The labels of a tree hold no `/` where the leaf owner's name holds none.
pub proof fn lemma_tree_labels_plain(t: Map<i32, Process>, pid: i32)
    requires
        no_char(leaf_user(t, pid), '/'),
    ensures
        plain(tree_labels(t, pid)),
{
    let hs = walk(t, pid);
    let ls = labels(hs);
    assert forall|i: int| 0 <= i < ls.len() implies no_char(#[trigger] ls[i], '/') by {
        assert(ls[i] == label_of(hs[i].runnable()));
        lemma_label_plain(hs[i].runnable());
    }
    lemma_collapse_plain(ls);
    let acc = collapse(ls);
    let user = leaf_user(t, pid);
    let ut = tagged(acc, user);
    let out = tree_labels(t, pid);
    reveal_strlit("ssh:");
    reveal_strlit("random");
    lemma_last_sshd_bounds(acc);
    let tag = "ssh:"@ + user;
    assert forall|m: int| 0 <= m < tag.len() implies tag[m] != '/' by {
        if m >= 4 {
            assert(tag[m] == user[m - 4]);
        }
    }
    assert forall|i: int, m: int| 0 <= i < ut.len() && 0 <= m < ut[i].len() implies #[trigger] ut[i][m]
        != '/' by {
        if i != last_sshd(acc) || last_sshd(acc) < 0 {
            assert(ut[i] == acc[i]);
        } else {
            assert(ut[i] == tag);
        }
    }
    assert forall|i: int, m: int| 0 <= i < out.len() && 0 <= m < out[i].len() implies #[trigger] out[i][m]
        != '/' by {
        if hops_entropy(hs) < RANDOM_THRESHOLD && i > 0 {
            assert(out[i] == ut[i - 1]);
        } else if hops_entropy(hs) >= RANDOM_THRESHOLD {
            assert(out[i] == ut[i]);
        }
    }
}

/// The `/`-separated pieces of the text of labels free of `/`: an empty
/// piece before the first `/`, then the labels, the last one first.
pub proof fn lemma_rooted_pieces(ls: Seq<Seq<char>>)
    requires
        plain(ls),
    ensures
        pieces(rooted(ls), '/').len() == ls.len() + 1,
        pieces(rooted(ls), '/')[0] == Seq::<char>::empty(),
        forall|m: int|
            0 <= m < ls.len() ==> #[trigger] pieces(rooted(ls), '/')[m + 1] == ls[ls.len() - 1 - m],
    decreases ls.len(),
{
    if ls.len() == 0 {
        assert(pieces(rooted(ls), '/') == seq![Seq::<char>::empty()]);
    } else {
        let rest = ls.drop_first();
        assert forall|i: int, m: int| 0 <= i < rest.len() && 0 <= m < rest[i].len() implies #[trigger] rest[i][m]
            != '/' by {
            assert(rest[i] == ls[i + 1]);
        }
        lemma_rooted_pieces(rest);
        let x = rooted(rest);
        let p = x + seq!['/'] + ls[0];
        assert forall|m: int| 0 <= m < ls[0].len() implies ls[0][m] != '/' by {
            assert(ls[0][m] != '/');
        }
        lemma_last_index_after(x + seq!['/'], ls[0], '/');
        assert(p.subrange(0, x.len() as int) =~= x);
        assert(p.subrange((x.len() + 1) as int, p.len() as int) =~= ls[0]);
        assert(pieces(p, '/') == pieces(x, '/').push(ls[0]));
        assert forall|m: int| 0 <= m < ls.len() implies #[trigger] pieces(rooted(ls), '/')[m + 1]
            == ls[ls.len() - 1 - m] by {
            if m < ls.len() - 1 {
                assert(pieces(x, '/')[m + 1] == rest[rest.len() - 1 - m]);
            }
        }
    }
}

proof fn lemma_text_pieces(t: Map<i32, Process>, pid: i32)
    requires
        no_char(leaf_user(t, pid), '/'),
    ensures
        ({
            let ls = tree_labels(t, pid);
            let ps = pieces(chain(t, pid), '/');
            &&& ps.len() == if ls.len() == 0 { 2 } else { ls.len() + 1 }
            &&& ps[0] == Seq::<char>::empty()
            &&& ls.len() == 0 ==> ps[1] == Seq::<char>::empty()
            &&& forall|m: int| 0 <= m < ls.len() ==> #[trigger] ps[m + 1] == ls[ls.len() - 1 - m]
        }),
{
    lemma_tree_labels_plain(t, pid);
    let ls = tree_labels(t, pid);
    if ls.len() == 0 {
        let c = seq!['/'];
        lemma_last_index_after(c, Seq::<char>::empty(), '/');
        assert(c + Seq::<char>::empty() =~= c);
        assert(c.subrange(0, 0) =~= Seq::<char>::empty());
        assert(c.subrange(1, 1) =~= Seq::<char>::empty());
        assert(pieces(Seq::<char>::empty(), '/') == seq![Seq::<char>::empty()]);
        assert(pieces(c, '/') =~= seq![Seq::<char>::empty(), Seq::<char>::empty()]);
    } else {
        lemma_rooted_pieces(ls);
    }
}

/// In the text of a tree whose leaf owner's name holds no `/`, no `/`-separated piece
/// is `systemd`.
pub proof fn lemma_text_no_systemd(t: Map<i32, Process>, pid: i32)
    requires
        no_char(leaf_user(t, pid), '/'),
    ensures
        forall|m: int|
            0 <= m < pieces(chain(t, pid), '/').len() ==> #[trigger] pieces(chain(t, pid), '/')[m]
                != "systemd"@,
{
    lemma_tree_labels_plain(t, pid);
    let ls = tree_labels(t, pid);
    let ps = pieces(chain(t, pid), '/');
    lemma_text_pieces(t, pid);
    lemma_no_systemd(t, pid);
    reveal_strlit("systemd");
    assert forall|m: int| 0 <= m < ps.len() implies #[trigger] ps[m] != "systemd"@ by {
        if m >= 1 && ls.len() > 0 {
            assert(ps[(m - 1) + 1] == ls[ls.len() - 1 - (m - 1)]);
        }
    }
}

/// In the text of a tree whose leaf owner's name holds no `/`, the piece that stands for
/// the last `sshd` hop kept is `ssh:` and the owner of the leaf process.
pub proof fn lemma_text_ssh_tagged(t: Map<i32, Process>, pid: i32)
    requires
        no_char(leaf_user(t, pid), '/'),
        collapse(labels(walk(t, pid))).contains("sshd"@),
    ensures
        ({
            let acc = collapse(labels(walk(t, pid)));
            let ls = tree_labels(t, pid);
            let shift: int = if hops_entropy(walk(t, pid)) < RANDOM_THRESHOLD {
                1
            } else {
                0
            };
            pieces(chain(t, pid), '/')[ls.len() - (last_sshd(acc) + shift)] == "ssh:"@ + leaf_user(
                t,
                pid,
            )
        }),
{
    lemma_tree_labels_plain(t, pid);
    let acc = collapse(labels(walk(t, pid)));
    let ls = tree_labels(t, pid);
    lemma_ssh_tagged(t, pid);
    lemma_random_marker(t, pid);
    lemma_text_pieces(t, pid);
    let shift: int = if hops_entropy(walk(t, pid)) < RANDOM_THRESHOLD {
        1
    } else {
        0
    };
    let q = last_sshd(acc) + shift;
    assert(pieces(chain(t, pid), '/')[(ls.len() - 1 - q) + 1] == ls[ls.len() - 1 - (ls.len() - 1 - q)]);
}

/// In the text of a tree whose leaf owner's name holds no `/`, neighbouring pieces that
/// stand for hops differ, where no hop's label is the one the ssh hop gets:
/// consecutive hops with one label appear once.
pub proof fn lemma_text_repeats_collapsed(t: Map<i32, Process>, pid: i32)
    requires
        no_char(leaf_user(t, pid), '/'),
        !collapse(labels(walk(t, pid))).contains("ssh:"@ + leaf_user(t, pid)),
    ensures
        forall|m: int|
            1 <= m < collapse(labels(walk(t, pid))).len() ==> #[trigger] pieces(chain(t, pid), '/')[m]
                != pieces(chain(t, pid), '/')[m + 1],
{
    lemma_tree_labels_plain(t, pid);
    let acc = collapse(labels(walk(t, pid)));
    let user = leaf_user(t, pid);
    let ut = tagged(acc, user);
    let ls = tree_labels(t, pid);
    let ps = pieces(chain(t, pid), '/');
    lemma_collapse_shape(labels(walk(t, pid)));
    lemma_last_sshd_bounds(acc);
    lemma_random_marker(t, pid);
    lemma_text_pieces(t, pid);
    assert forall|k: int| 0 <= k < ut.len() - 1 implies #[trigger] ut[k] != ut[k + 1] by {
        let q = last_sshd(acc);
        if k == q {
            assert(ut[k + 1] == acc[k + 1]);
            assert(acc.contains(acc[k + 1]));
        } else if k + 1 == q {
            assert(ut[k] == acc[k]);
            assert(acc.contains(acc[k]));
        } else {
            assert(ut[k] == acc[k] && ut[k + 1] == acc[k + 1]);
        }
    }
    let shift: int = if hops_entropy(walk(t, pid)) < RANDOM_THRESHOLD {
        1
    } else {
        0
    };
    assert forall|m: int| 1 <= m < acc.len() implies #[trigger] ps[m] != ps[m + 1] by {
        assert(ps[(m - 1) + 1] == ls[ls.len() - 1 - (m - 1)]);
        assert(ps[m + 1] == ls[ls.len() - 1 - m]);
        assert(ls[ls.len() - m] == ut[ls.len() - m - shift]);
        assert(ls[ls.len() - 1 - m] == ut[ls.len() - 1 - m - shift]);
    }
}

/// Whether two tables track the same pids, with the same parents and labels.
pub open spec fn same_shape(t1: Map<i32, Process>, t2: Map<i32, Process>) -> bool {
    &&& t1.dom() == t2.dom()
    &&& forall|k: i32| #[trigger]
        t1.contains_key(k) ==> t1[k].ppid == t2[k].ppid && t1[k].spec_label() == t2[k].spec_label()
}

proof fn lemma_hops_same_labels(t1: Map<i32, Process>, t2: Map<i32, Process>, c: i32, f: nat)
    requires
        same_shape(t1, t2),
    ensures
        labels(hops(t1, c, f)) == labels(hops(t2, c, f)),
    decreases f,
{
    assert(t1.contains_key(c) == t2.contains_key(c));
    if f > 0 && c != 0 && t1.contains_key(c) {
        lemma_hops_same_labels(t1, t2, t1[c].ppid, (f - 1) as nat);
        let r1 = hops(t1, t1[c].ppid, (f - 1) as nat);
        let r2 = hops(t2, t2[c].ppid, (f - 1) as nat);
        assert(labels(seq![t1[c]] + r1) =~= seq![t1[c].spec_label()] + labels(r1));
        assert(labels(seq![t2[c]] + r2) =~= seq![t2[c].spec_label()] + labels(r2));
    }
}

/// Where no hop's path entropy lies below the threshold, path entropy has no
/// part in a tree's text: tables that track the same pids with the same
/// parents and labels, and the same owner of the leaf, give one text.
pub proof fn lemma_entropy_only_marks(t1: Map<i32, Process>, t2: Map<i32, Process>, pid: i32)
    requires
        same_shape(t1, t2),
        leaf_user(t1, pid) == leaf_user(t2, pid),
        forall|i: int|
            0 <= i < walk(t1, pid).len() ==> #[trigger] walk(t1, pid)[i].spec_entropy()
                >= RANDOM_THRESHOLD,
        forall|i: int|
            0 <= i < walk(t2, pid).len() ==> #[trigger] walk(t2, pid)[i].spec_entropy()
                >= RANDOM_THRESHOLD,
    ensures
        chain(t1, pid) == chain(t2, pid),
{
    assert(t1.len() == t2.len());
    lemma_hops_same_labels(t1, t2, pid, t1.len());
    lemma_no_random(t1, pid);
    lemma_no_random(t2, pid);
}

/// Of two tables that track the same pids with the same parents and labels,
/// and the same owner of the leaf, where no hop of the first lies below the
/// threshold and some hop of the second does, the second's text is the
/// first's labels written out (without the lone `/` of an empty tree)
/// followed by `/random`.
pub proof fn lemma_random_appended(t1: Map<i32, Process>, t2: Map<i32, Process>, pid: i32, i: int)
    requires
        same_shape(t1, t2),
        leaf_user(t1, pid) == leaf_user(t2, pid),
        forall|j: int|
            0 <= j < walk(t1, pid).len() ==> #[trigger] walk(t1, pid)[j].spec_entropy()
                >= RANDOM_THRESHOLD,
        0 <= i < walk(t2, pid).len(),
        walk(t2, pid)[i].spec_entropy() < RANDOM_THRESHOLD,
    ensures
        chain(t2, pid) == rooted(tree_labels(t1, pid)) + "/random"@,
        tree_labels(t1, pid).len() > 0 ==> chain(t2, pid) == chain(t1, pid) + "/random"@,
{
    assert(t1.len() == t2.len());
    lemma_hops_same_labels(t1, t2, pid, t1.len());
    lemma_no_random(t1, pid);
    lemma_hops_entropy_below(walk(t2, pid), i);
    let ut = tree_labels(t1, pid);
    let ls = tree_labels(t2, pid);
    assert(ls == seq!["random"@] + ut);
    assert(ls.drop_first() =~= ut);
    reveal_strlit("random");
    reveal_strlit("/random");
    assert(rooted(ls) == rooted(ut) + seq!['/'] + "random"@);
    assert(rooted(ut) + seq!['/'] + "random"@ =~= rooted(ut) + "/random"@);
}

/// The tree label is a function of the table and the pid alone: two queries
/// on one table give one text.
pub proof fn lemma_chain_repeatable(t1: Map<i32, Process>, t2: Map<i32, Process>, pid: i32)
    requires
        t1 == t2,
    ensures
        chain(t1, pid) == chain(t2, pid),
{
}

/// What one event does to the table: an exec tracks each descriptor
/// resolved on its walk (`Watcher::discovered`), an exit untracks its pid
/// (`Watcher::stop`).
pub enum TableStep {
    Track(Process),
    Untrack(i32),
}

/// The table after the steps, in order, from `t`.
pub open spec fn apply(t: Map<i32, Process>, steps: Seq<TableStep>) -> Map<i32, Process>
    decreases steps.len(),
{
    if steps.len() == 0 {
        t
    } else {
        match steps.last() {
            TableStep::Track(p) => apply(t, steps.drop_last()).insert(p.pid, p),
            TableStep::Untrack(q) => apply(t, steps.drop_last()).remove(q),
        }
    }
}

/// Every descriptor is well formed and stored under its own pid.
pub open spec fn table_wf(t: Map<i32, Process>) -> bool {
    forall|k: i32| #[trigger] t.contains_key(k) ==> t[k].pid == k && t[k].wf()
}

/// Whether a step tracks only a well-formed descriptor.
pub open spec fn well_formed_step(s: TableStep) -> bool {
    match s {
        TableStep::Track(p) => p.wf(),
        TableStep::Untrack(_) => true,
    }
}

/// Whether a step tracks pid `q`.
pub open spec fn tracks_pid(s: TableStep, q: i32) -> bool {
    match s {
        TableStep::Track(p) => p.pid == q,
        TableStep::Untrack(_) => false,
    }
}

/// From an empty table, after any sequence of steps that track well-formed
/// descriptors only, every tracked pid holds a well-formed descriptor of its
/// own.
pub proof fn lemma_steps_wf(steps: Seq<TableStep>)
    requires
        forall|j: int| 0 <= j < steps.len() ==> well_formed_step(#[trigger] steps[j]),
    ensures
        table_wf(apply(Map::empty(), steps)),
    decreases steps.len(),
{
    if steps.len() > 0 {
        assert forall|j: int| 0 <= j < steps.drop_last().len() implies well_formed_step(
            #[trigger] steps.drop_last()[j],
        ) by {
            assert(steps.drop_last()[j] == steps[j]);
        }
        lemma_steps_wf(steps.drop_last());
        assert(well_formed_step(steps[steps.len() - 1]));
    }
}

/// A pid untracked by an exit, and tracked by no later step, is absent from
/// the table.
pub proof fn lemma_exit_stays_untracked(t: Map<i32, Process>, steps: Seq<TableStep>, i: int, q: i32)
    requires
        0 <= i < steps.len(),
        steps[i] == TableStep::Untrack(q),
        forall|j: int| i < j < steps.len() ==> !tracks_pid(#[trigger] steps[j], q),
    ensures
        !apply(t, steps).contains_key(q),
    decreases steps.len(),
{
    if i < steps.len() - 1 {
        assert forall|j: int| i < j < steps.drop_last().len() implies !tracks_pid(
            #[trigger] steps.drop_last()[j],
            q,
        ) by {
            assert(steps.drop_last()[j] == steps[j]);
        }
        lemma_exit_stays_untracked(t, steps.drop_last(), i, q);
        assert(!tracks_pid(steps[steps.len() - 1], q));
    }
}

/// Nanoseconds from `start` to `now`; 0 where the clock reads earlier.
pub open spec fn elapsed(start: u64, now: u64) -> u64 {
    if now >= start {
        (now - start) as u64
    } else {
        0
    }
}

/// What an exit of a tracked process leaves to report.
pub struct Stopped {
    /// The tree label, computed on the table without the process.
    pub tree: String,
    /// How long the process was tracked, in nanoseconds.
    pub nanos: u64,
}

/// The owner of the process table: it decides what each exec and exit
/// event does to the table and what is to be reported.
pub struct Watcher {
    pids: HashMap<i32, Process>,
}

impl Watcher {
    pub closed spec fn table(&self) -> Map<i32, Process> {
        self.pids@
    }

    /// Every tracked descriptor is well formed and stored under its own pid.
    pub open spec fn wf(&self) -> bool {
        forall|k: i32| #[trigger]
            self.table().contains_key(k) ==> self.table()[k].pid == k && self.table()[k].wf()
    }

    /// A watcher with an empty table.
    pub fn new() -> (r: Watcher)
        ensures
            r.table() == Map::<i32, Process>::empty(),
            r.wf(),
    {
        let r = Watcher { pids: HashMap::new() };
        assert(r.table() =~= Map::<i32, Process>::empty());
        r
    }

    /// Whether `pid` is tracked.
    pub fn tracks(&self, pid: i32) -> (r: bool)
        ensures
            r == self.table().contains_key(pid),
    {
        self.pids.contains_key(&pid)
    }

    /// One step of the walk that an exec of a process starts at its pid:
    /// the pid whose descriptor is to be resolved next, or `None` where the
    /// walk ends, at pid 0 or at a pid already tracked.
    pub fn next_to_resolve(&self, curr: i32) -> (r: Option<i32>)
        ensures
            r == (if curr != 0 && !self.table().contains_key(curr) {
                Some(curr)
            } else {
                None
            }),
    {
        if curr != 0 && !self.pids.contains_key(&curr) {
            Some(curr)
        } else {
            None
        }
    }

    /// Tracks a resolved descriptor of a pid not yet tracked; returns the pid
    /// that the walk goes on with, its parent.
    pub fn discovered(&mut self, prc: Process) -> (r: i32)
        requires
            old(self).wf(),
            prc.wf(),
            !old(self).table().contains_key(prc.pid),
        ensures
            final(self).table() == old(self).table().insert(prc.pid, prc),
            final(self).table() == apply(old(self).table(), seq![TableStep::Track(prc)]),
            r == prc.ppid,
            final(self).wf(),
    {
        let next = prc.ppid;
        let ghost before = self.table();
        let ghost steps = seq![TableStep::Track(prc)];
        assert(steps.drop_last() =~= Seq::<TableStep>::empty());
        assert(apply(before, steps.drop_last()) == before);
        assert(steps.last() == TableStep::Track(prc));
        assert(apply(before, steps) == before.insert(prc.pid, prc));
        self.pids.insert(prc.pid, prc);
        next
    }

    /// The tree label to report once an exec of `pid` has been handled.
    pub fn started(&self, pid: i32) -> (r: String)
        ensures
            r@ == chain(self.table(), pid),
    {
        tree(&self.pids, pid)
    }

    /// Handles an exit of `pid` at monotonic time `now`: nothing for a pid
    /// that is not tracked; else the pid leaves the table, and its tree label
    /// on the table without it and its lifetime are returned.
    pub fn stop(&mut self, pid: i32, now: u64) -> (r: Option<Stopped>)
        requires
            old(self).wf(),
        ensures
            final(self).wf(),
            final(self).table() == apply(old(self).table(), seq![TableStep::Untrack(pid)]),
            !old(self).table().contains_key(pid) ==> r is None && final(self).table() == old(
                self,
            ).table(),
            old(self).table().contains_key(pid) ==> {
                &&& final(self).table() == old(self).table().remove(pid)
                &&& r matches Some(s) && s.tree@ == chain(final(self).table(), pid) && s.nanos
                    == elapsed(old(self).table()[pid].start, now)
            },
    {
        let ghost before = self.table();
        let ghost steps = seq![TableStep::Untrack(pid)];
        assert(steps.drop_last() =~= Seq::<TableStep>::empty());
        assert(apply(before, steps.drop_last()) == before);
        assert(steps.last() == TableStep::Untrack(pid));
        assert(apply(before, steps) == before.remove(pid));
        match self.pids.remove(&pid) {
            None => {
                assert(before.remove(pid) =~= before);
                None
            },
            Some(prc) => {
                let tree = tree(&self.pids, pid);
                let nanos = if now >= prc.start {
                    now - prc.start
                } else {
                    0
                };
                Some(Stopped { tree, nanos })
            },
        }
    }
}

} // verus!
