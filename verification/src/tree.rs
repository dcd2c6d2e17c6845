//! The notes tree: the folders of the notes folder, with the documents
//! under them, each folder carrying the word count of what it holds.

use vstd::prelude::*;
use crate::index::{find_path, Index, NoteMeta, NoteMetaSpec};
use crate::text::{chars_eq, chars_of, is_prefix, keys_view, split_char, strictly_sorted};

verus! {

/// A folder or a document of the notes tree.
#[derive(Debug)]
pub struct TreeNode {
    pub name: String,
    /// vault-relative
    pub path: String,
    pub is_dir: bool,
    pub children: Vec<TreeNode>,
    /// a document's date, if it has one
    pub date: String,
    /// a document's words; a folder's, once added up, are those of all it holds
    pub words: usize,
    /// a document's last change (seconds); 0 for a folder
    pub mtime: u64,
}

/// A node as a mathematical value.
pub struct NodeSpec {
    pub name: Seq<char>,
    pub path: Seq<char>,
    pub is_dir: bool,
    pub children: Seq<NodeSpec>,
    pub date: Seq<char>,
    pub words: nat,
    pub mtime: nat,
}

pub open spec fn node_view(n: TreeNode) -> NodeSpec
    decreases n, 1nat,
{
    NodeSpec {
        name: n.name@,
        path: n.path@,
        is_dir: n.is_dir,
        children: nodes_view(n.children@),
        date: n.date@,
        words: n.words as nat,
        mtime: n.mtime as nat,
    }
}

pub open spec fn nodes_view(s: Seq<TreeNode>) -> Seq<NodeSpec>
    decreases s, 0nat,
{
    if s.len() == 0 {
        seq![]
    } else {
        nodes_view(s.subrange(0, s.len() - 1)).push(node_view(s[s.len() - 1]))
    }
}

pub proof fn lemma_nodes_view(s: Seq<TreeNode>)
    ensures
        nodes_view(s).len() == s.len(),
        forall|k: int| 0 <= k < s.len() ==> #[trigger] nodes_view(s)[k] == node_view(s[k]),
    decreases s.len(),
{
    if s.len() > 0 {
        let init = s.subrange(0, s.len() - 1);
        lemma_nodes_view(init);
        assert forall|k: int| 0 <= k < s.len() implies #[trigger] nodes_view(s)[k] == node_view(s[k]) by {
            if k < s.len() - 1 {
                assert(init[k] == s[k]);
            }
        }
    }
}

// ───────────────────────── word counts ─────────────────────────

pub open spec fn words_sum(s: Seq<NodeSpec>) -> nat
    decreases s.len(),
{
    if s.len() == 0 {
        0
    } else {
        words_sum(s.drop_last()) + s.last().words
    }
}

/// The node with each folder's words made those of all it holds.
pub open spec fn rolled(n: NodeSpec) -> NodeSpec
    decreases n, 1nat,
{
    if !n.is_dir {
        n
    } else {
        let cs = rolled_all(n.children);
        NodeSpec {
            name: n.name,
            path: n.path,
            is_dir: n.is_dir,
            children: cs,
            date: n.date,
            words: words_sum(cs),
            mtime: n.mtime,
        }
    }
}

pub open spec fn rolled_all(s: Seq<NodeSpec>) -> Seq<NodeSpec>
    decreases s, 0nat,
{
    if s.len() == 0 {
        seq![]
    } else {
        rolled_all(s.subrange(0, s.len() - 1)).push(rolled(s[s.len() - 1]))
    }
}

pub proof fn lemma_rolled_all(s: Seq<NodeSpec>)
    ensures
        rolled_all(s).len() == s.len(),
        forall|k: int| 0 <= k < s.len() ==> #[trigger] rolled_all(s)[k] == rolled(s[k]),
    decreases s.len(),
{
    if s.len() > 0 {
        let init = s.subrange(0, s.len() - 1);
        lemma_rolled_all(init);
        assert forall|k: int| 0 <= k < s.len() implies #[trigger] rolled_all(s)[k] == rolled(s[k]) by {
            if k < s.len() - 1 {
                assert(init[k] == s[k]);
            }
        }
    }
}

proof fn lemma_words_sum_take(s: Seq<NodeSpec>, i: int)
    requires
        0 <= i < s.len(),
    ensures
        words_sum(s.take(i)) + s[i].words <= words_sum(s),
        words_sum(s.take(i + 1)) == words_sum(s.take(i)) + s[i].words,
    decreases s.len(),
{
    assert(s.take(i + 1).drop_last() =~= s.take(i));
    if i < s.len() - 1 {
        lemma_words_sum_take(s.drop_last(), i);
        assert(s.drop_last().take(i) =~= s.take(i));
        assert(s.drop_last().take(i + 1) =~= s.take(i + 1));
    } else {
        assert(s.take(i + 1) =~= s);
    }
}

/// Gives each folder of `n` the words of all it holds; the words of `n`.
pub fn rollup_words(n: &mut TreeNode) -> (r: usize)
    requires
        rolled(node_view(*old(n))).words <= usize::MAX,
    ensures
        node_view(*final(n)) == rolled(node_view(*old(n))),
        r == rolled(node_view(*old(n))).words,
    decreases *old(n),
{
    if !n.is_dir {
        return n.words;
    }
    let ghost orig = old(n).children@;
    let ghost ov = nodes_view(orig);
    let ghost target = rolled_all(ov);
    proof {
        lemma_nodes_view(orig);
        lemma_rolled_all(ov);
    }
    let mut kids: Vec<TreeNode> = Vec::new();
    std::mem::swap(&mut kids, &mut n.children);
    let mut out: Vec<TreeNode> = Vec::new();
    let mut sum: usize = 0;
    let mut i: usize = 0;
    let total = kids.len();
    while i < total
        invariant
            0 <= i <= total,
            total == orig.len(),
            orig == old(n).children@,
            ov == nodes_view(orig),
            ov.len() == orig.len(),
            target == rolled_all(ov),
            target.len() == ov.len(),
            forall|k: int| 0 <= k < orig.len() ==> #[trigger] ov[k] == node_view(orig[k]),
            forall|k: int| 0 <= k < ov.len() ==> #[trigger] target[k] == rolled(ov[k]),
            kids@ == orig.skip(i as int),
            out@.len() == i,
            forall|k: int| 0 <= k < i ==> node_view(#[trigger] out@[k]) == target[k],
            sum == words_sum(target.take(i as int)),
            words_sum(target) <= usize::MAX,
            n.is_dir == old(n).is_dir,
            n.name == old(n).name,
            n.path == old(n).path,
            n.date == old(n).date,
            n.mtime == old(n).mtime,
            decreases_to!(*old(n) => old(n).children),
        decreases total - i,
    {
        let mut c = kids.remove(0);
        assert(c == orig[i as int]);
        proof {
            lemma_words_sum_take(target, i as int);
            assert(decreases_to!(old(n).children => old(n).children@));
            assert(decreases_to!(old(n).children@ => old(n).children@[i as int]));
        }
        let w = rollup_words(&mut c);
        out.push(c);
        sum = sum + w;
        assert(kids@ =~= orig.skip(i + 1));
        i += 1;
    }
    assert(target.take(total as int) =~= target);
    proof {
        lemma_nodes_view(out@);
        assert(nodes_view(out@) =~= target);
    }
    n.children = out;
    n.words = sum;
    sum
}

// ───────────────────────── putting documents in ─────────────────────────

/// The leaf for a document.
pub open spec fn leaf_of(m: NoteMetaSpec) -> NodeSpec {
    NodeSpec {
        name: m.stem,
        path: m.path,
        is_dir: false,
        children: seq![],
        date: m.date,
        words: m.words,
        mtime: m.mtime,
    }
}

/// An empty folder.
pub open spec fn folder_of(name: Seq<char>, path: Seq<char>) -> NodeSpec {
    NodeSpec { name, path, is_dir: true, children: seq![], date: seq![], words: 0, mtime: 0 }
}

pub open spec fn with_children(n: NodeSpec, cs: Seq<NodeSpec>) -> NodeSpec {
    NodeSpec {
        name: n.name,
        path: n.path,
        is_dir: n.is_dir,
        children: cs,
        date: n.date,
        words: n.words,
        mtime: n.mtime,
    }
}

pub open spec fn is_folder_named(n: NodeSpec, d: Seq<char>) -> bool {
    n.is_dir && n.name == d
}

/// The first folder among `cs` named `d`.
pub open spec fn find_dir(cs: Seq<NodeSpec>, d: Seq<char>) -> Option<int> {
    if exists|i: int| 0 <= i < cs.len() && is_folder_named(#[trigger] cs[i], d) {
        Some(
            choose|i: int|
                0 <= i < cs.len() && is_folder_named(#[trigger] cs[i], d) && forall|j: int|
                    0 <= j < i ==> !is_folder_named(#[trigger] cs[j], d),
        )
    } else {
        None
    }
}

/// `cs` with the document `m` put in at `parts` (the pieces of its path
/// below the notes folder): the last piece is the document; each piece
/// before it is a folder, the first of that name, or a new one at the end
/// (a new folder's path is `prefix` and its name).
pub open spec fn inserted(cs: Seq<NodeSpec>, parts: Seq<Seq<char>>, m: NoteMetaSpec, prefix: Seq<char>) -> Seq<NodeSpec>
    decreases parts.len(),
{
    if parts.len() <= 1 {
        cs.push(leaf_of(m))
    } else {
        let d = parts[0];
        match find_dir(cs, d) {
            Some(i) => cs.update(i, with_children(cs[i], inserted(cs[i].children, parts.skip(1), m, prefix))),
            None => cs.push(with_children(folder_of(d, prefix + d), inserted(seq![], parts.skip(1), m, prefix))),
        }
    }
}

proof fn lemma_nodes_push(s: Seq<TreeNode>, x: TreeNode)
    ensures
        nodes_view(s.push(x)) == nodes_view(s).push(node_view(x)),
{
    assert(s.push(x).subrange(0, s.len() as int) =~= s);
}

proof fn lemma_nodes_update(s: Seq<TreeNode>, i: int, x: TreeNode)
    requires
        0 <= i < s.len(),
    ensures
        nodes_view(s.update(i, x)) == nodes_view(s).update(i, node_view(x)),
{
    lemma_nodes_view(s);
    lemma_nodes_view(s.update(i, x));
    assert(nodes_view(s.update(i, x)) =~= nodes_view(s).update(i, node_view(x)));
}

fn leaf(m: &NoteMeta) -> (r: TreeNode)
    ensures
        node_view(r) == leaf_of(m@),
{
    let r = TreeNode {
        name: m.stem.clone(),
        path: m.path.clone(),
        is_dir: false,
        children: Vec::new(),
        date: m.date.clone(),
        words: m.words,
        mtime: m.mtime,
    };
    assert(nodes_view(r.children@) =~= Seq::<NodeSpec>::empty());
    r
}

fn folder(name: &[char], path: Vec<char>) -> (r: TreeNode)
    ensures
        node_view(r) == folder_of(name@, path@),
{
    let r = TreeNode {
        name: crate::text::string_of(name),
        path: crate::text::string_of(&path),
        is_dir: true,
        children: Vec::new(),
        date: String::new(),
        words: 0,
        mtime: 0,
    };
    proof {
        reveal_strlit("");
    }
    assert(nodes_view(r.children@) =~= Seq::<NodeSpec>::empty());
    r
}

/// The first folder among `children` named `d`.
fn position_of_dir(children: &Vec<TreeNode>, d: &[char]) -> (r: Option<usize>)
    ensures
        match r {
            Some(i) => find_dir(nodes_view(children@), d@) == Some(i as int) && i < children@.len(),
            None => find_dir(nodes_view(children@), d@) is None,
        },
{
    let ghost cs = nodes_view(children@);
    proof {
        lemma_nodes_view(children@);
    }
    let mut i: usize = 0;
    while i < children.len()
        invariant
            0 <= i <= children@.len(),
            cs == nodes_view(children@),
            cs.len() == children@.len(),
            forall|k: int| 0 <= k < children@.len() ==> #[trigger] cs[k] == node_view(children@[k]),
            forall|j: int| 0 <= j < i ==> !is_folder_named(#[trigger] cs[j], d@),
        decreases children.len() - i,
    {
        assert(cs[i as int] == node_view(children@[i as int]));
        if children[i].is_dir && chars_eq(&chars_of(children[i].name.as_str()), d) {
            proof {
                let c = choose|k: int|
                    0 <= k < cs.len() && is_folder_named(#[trigger] cs[k], d@) && forall|j: int|
                        0 <= j < k ==> !is_folder_named(#[trigger] cs[j], d@);
                assert(is_folder_named(cs[i as int], d@));
                if c < i {
                    assert(!is_folder_named(cs[c], d@));
                } else if c > i {
                    assert(!is_folder_named(cs[i as int], d@));
                }
            }
            return Some(i);
        }
        i += 1;
    }
    None
}

/// Puts the document `m` into `children` at `parts[from..]`.
#[verifier::spinoff_prover]
#[verifier::rlimit(40)]
fn insert_node(children: &mut Vec<TreeNode>, parts: &Vec<Vec<char>>, from: usize, m: &NoteMeta, prefix: &str)
    requires
        from < parts@.len(),
    ensures
        nodes_view(final(children)@) == inserted(
            nodes_view(old(children)@),
            crate::text::keys_view(parts@).skip(from as int),
            m@,
            prefix@,
        ),
    decreases parts@.len() - from,
{
    let ghost pv = crate::text::keys_view(parts@).skip(from as int);
    if from == parts.len() - 1 {
        let l = leaf(m);
        proof {
            lemma_nodes_push(children@, l);
        }
        children.push(l);
        return;
    }
    let d = &parts[from];
    assert(pv[0] == d@);
    assert(pv.skip(1) =~= crate::text::keys_view(parts@).skip(from + 1));
    let ghost cs0 = nodes_view(children@);
    let idx = match position_of_dir(children, d) {
        Some(i) => i,
        None => {
            let mut p = chars_of(prefix);
            crate::text::push_all(&mut p, d);
            let f = folder(d, p);
            proof {
                lemma_nodes_push(children@, f);
            }
            children.push(f);
            children.len() - 1
        },
    };
    let ghost v1 = children@;
    let ghost cs1 = nodes_view(children@);
    proof {
        lemma_nodes_view(children@);
    }
    let mut node = children.remove(idx);
    let ghost n0 = node;
    assert(cs1[idx as int] == node_view(node));
    insert_node(&mut node.children, parts, from + 1, m, prefix);
    assert(node_view(node) == with_children(cs1[idx as int], nodes_view(node.children@)));
    children.insert(idx, node);
    proof {
        assert(children@ =~= v1.update(idx as int, node));
        lemma_nodes_update(v1, idx as int, node);
        match find_dir(cs0, d@) {
            Some(i) => {
                assert(i == idx);
                assert(cs1 == cs0);
            },
            None => {
                assert(cs1 == cs0.push(folder_of(d@, prefix@ + d@)));
                assert(cs1.update(idx as int, node_view(node)) =~= cs0.push(node_view(node)));
            },
        }
    }
}

// ───────────────────────── the whole tree ─────────────────────────

/// What `str::trim_start_matches` with a non-empty string pattern gives:
/// every leading copy of `p` removed.
pub open spec fn strip_all(s: Seq<char>, p: Seq<char>) -> Seq<char>
    decreases s.len(),
{
    if p.len() > 0 && is_prefix(p, s) {
        strip_all(s.skip(p.len() as int), p)
    } else {
        s
    }
}

pub(crate) fn strip_all_exec(s: &[char], p: &[char]) -> (r: Vec<char>)
    ensures
        r@ == strip_all(s@, p@),
{
    let mut cur = crate::text::slice_chars(s, 0, s.len());
    assert(cur@ =~= s@);
    if p.len() == 0 {
        return cur;
    }
    while crate::text::starts_with(&cur, p)
        invariant
            p@.len() > 0,
            strip_all(s@, p@) == strip_all(cur@, p@),
        decreases cur@.len(),
    {
        let next = crate::text::slice_chars(&cur, p.len(), cur.len());
        assert(next@ =~= cur@.skip(p@.len() as int));
        cur = next;
    }
    cur
}

/// `k` is the path of a document of `s` under `prefix`.
pub open spec fn path_under(s: Seq<NoteMetaSpec>, prefix: Seq<char>, k: Seq<char>) -> bool {
    exists|i: int| 0 <= i < s.len() && (#[trigger] s[i]).path == k && is_prefix(prefix, k)
}

/// The paths of the documents of `s` under `prefix`, in text order.
pub open spec fn paths_under(s: Seq<NoteMetaSpec>, prefix: Seq<char>) -> Seq<Seq<char>> {
    choose|ks: Seq<Seq<char>>|
        strictly_sorted(ks) && forall|k: Seq<char>| #[trigger] ks.contains(k) <==> path_under(s, prefix, k)
}

/// The entry of `s` for the path `k`.
pub open spec fn meta_at(s: Seq<NoteMetaSpec>, k: Seq<char>) -> NoteMetaSpec {
    s[find_path(s, k)->Some_0]
}

/// The documents of `s` under `prefix`, in the text order of their paths.
pub open spec fn notes_in(s: Seq<NoteMetaSpec>, prefix: Seq<char>) -> Seq<NoteMetaSpec> {
    paths_under(s, prefix).map_values(|k: Seq<char>| meta_at(s, k))
}

/// `cs` with the documents `items` put in, in order, each at its path
/// below `prefix`.
pub open spec fn planted(cs: Seq<NodeSpec>, items: Seq<NoteMetaSpec>, prefix: Seq<char>) -> Seq<NodeSpec>
    decreases items.len(),
{
    if items.len() == 0 {
        cs
    } else {
        let m = items.last();
        inserted(planted(cs, items.drop_last(), prefix), split_char(strip_all(m.path, prefix), '/'), m, prefix)
    }
}

/// The notes tree: the folders `dirs` found on disk under the notes folder
/// (empty ones too), the index's documents under it put in by path, and
/// each folder's words added up.
pub open spec fn notes_tree_spec(notes_dir: Seq<char>, dirs: Seq<NodeSpec>, s: Seq<NoteMetaSpec>) -> Seq<NodeSpec> {
    let prefix = notes_dir + "/"@;
    rolled_all(planted(dirs, notes_in(s, prefix), prefix))
}

/// The notes tree from the folders `dirs` found under the notes folder and
/// the documents of the index.
pub fn build_notes_tree(notes_dir: &str, dirs: Vec<TreeNode>, idx: &Index) -> (r: Vec<TreeNode>)
    requires
        ({
            let prefix = notes_dir@ + "/"@;
            let p = planted(nodes_view(dirs@), notes_in(idx@, prefix), prefix);
            forall|k: int| 0 <= k < p.len() ==> #[trigger] rolled(p[k]).words <= usize::MAX
        }),
    ensures
        nodes_view(r@) == notes_tree_spec(notes_dir@, nodes_view(dirs@), idx@),
{
    let mut prefix = chars_of(notes_dir);
    crate::text::push_all(&mut prefix, &chars_of("/"));
    let ghost pv = prefix@;
    let prefix_s = crate::text::string_of(&prefix);
    let notes = idx.notes();
    let ghost s = idx@;
    // the paths under the notes folder, in order
    let mut keys: Vec<Vec<char>> = Vec::new();
    let mut i: usize = 0;
    while i < notes.len()
        invariant
            0 <= i <= notes@.len(),
            s == crate::index::metas_view(notes@),
            prefix@ == pv,
            strictly_sorted(keys_view(keys@)),
            forall|k: Seq<char>|
                #[trigger] keys_view(keys@).contains(k) <==> exists|j: int|
                    0 <= j < i && (#[trigger] s[j]).path == k && is_prefix(pv, k),
        decreases notes.len() - i,
    {
        assert(s[i as int] == notes@[i as int]@);
        let p = chars_of(notes[i].path.as_str());
        if crate::text::starts_with(&p, &prefix) {
            crate::text::insert_sorted(&mut keys, &p);
        }
        proof {
            assert forall|k: Seq<char>|
                #[trigger] keys_view(keys@).contains(k) <==> exists|j: int|
                    0 <= j < i + 1 && (#[trigger] s[j]).path == k && is_prefix(pv, k) by {
                if exists|j: int| 0 <= j < i + 1 && (#[trigger] s[j]).path == k && is_prefix(pv, k) {
                    let j = choose|j: int| 0 <= j < i + 1 && (#[trigger] s[j]).path == k && is_prefix(pv, k);
                    if j < i {
                        assert(exists|j2: int| 0 <= j2 < i && (#[trigger] s[j2]).path == k && is_prefix(pv, k));
                    }
                }
            }
        }
        i += 1;
    }
    let ghost ks = keys_view(keys@);
    proof {
        assert(strictly_sorted(ks) && forall|k: Seq<char>| #[trigger] ks.contains(k) <==> path_under(s, pv, k));
        let c = paths_under(s, pv);
        crate::text::lemma_strictly_sorted_unique(c, ks);
    }
    let ghost items = notes_in(s, pv);
    assert(items.len() == keys@.len());
    // put each in
    let mut root = dirs;
    let ghost d0 = nodes_view(root@);
    let mut k: usize = 0;
    assert(items.take(0) =~= Seq::<NoteMetaSpec>::empty());
    while k < keys.len()
        invariant
            0 <= k <= keys@.len(),
            items.len() == keys@.len(),
            ks == keys_view(keys@),
            items == notes_in(s, pv),
            ks == paths_under(s, pv),
            forall|q: Seq<char>| #[trigger] ks.contains(q) <==> path_under(s, pv, q),
            s == idx@,
            prefix_s@ == pv,
            prefix@ == pv,
            nodes_view(root@) == planted(d0, items.take(k as int), pv),
        decreases keys.len() - k,
    {
        assert(ks.contains(ks[k as int]));
        let m = match idx.get(crate::text::string_of(&keys[k]).as_str()) {
            Some(m) => m,
            None => {
                proof {
                    let j = choose|j: int| 0 <= j < s.len() && (#[trigger] s[j]).path == ks[k as int] && is_prefix(pv, ks[k as int]);
                    assert(s[j].path == ks[k as int]);
                }
                return Vec::new();
            },
        };
        assert(m@ == items[k as int]);
        let rel = strip_all_exec(&chars_of(m.path.as_str()), &prefix);
        let parts = crate::text::split_char_exec(&rel, '/');
        proof {
            crate::text::lemma_split_char_nonempty(rel@, '/');
            assert(keys_view(parts@).skip(0) =~= split_char(rel@, '/'));
            assert(items.take(k + 1).drop_last() =~= items.take(k as int));
            assert(items.take(k + 1).last() == items[k as int]);
        }
        insert_node(&mut root, &parts, 0, m, prefix_s.as_str());
        k += 1;
    }
    assert(items.take(items.len() as int) =~= items);
    // add up the words
    let ghost planted_v = nodes_view(root@);
    let ghost orig = root@;
    proof {
        lemma_nodes_view(orig);
        lemma_rolled_all(planted_v);
    }
    let mut kids: Vec<TreeNode> = root;
    let mut out: Vec<TreeNode> = Vec::new();
    let total = kids.len();
    let mut j: usize = 0;
    while j < total
        invariant
            0 <= j <= total,
            total == orig.len(),
            planted_v == nodes_view(orig),
            planted_v.len() == orig.len(),
            rolled_all(planted_v).len() == planted_v.len(),
            forall|q: int| 0 <= q < orig.len() ==> #[trigger] planted_v[q] == node_view(orig[q]),
            forall|q: int| 0 <= q < planted_v.len() ==> #[trigger] rolled_all(planted_v)[q] == rolled(planted_v[q]),
            forall|q: int| 0 <= q < planted_v.len() ==> #[trigger] rolled(planted_v[q]).words <= usize::MAX,
            kids@ == orig.skip(j as int),
            out@.len() == j,
            forall|q: int| 0 <= q < j ==> node_view(#[trigger] out@[q]) == rolled_all(planted_v)[q],
        decreases total - j,
    {
        let mut c = kids.remove(0);
        assert(c == orig[j as int]);
        assert(node_view(c) == planted_v[j as int]);
        let _ = rollup_words(&mut c);
        out.push(c);
        assert(kids@ =~= orig.skip(j + 1));
        j += 1;
    }
    proof {
        lemma_nodes_view(out@);
        assert(nodes_view(out@) =~= rolled_all(planted_v));
    }
    out
}


// ───────────────────────── laws ─────────────────────────

/// Once added up, a folder's words are the sum of its children's (each
/// added up in turn), and a document keeps its own.
pub proof fn law_folder_words_are_sums(n: NodeSpec)
    ensures
        rolled(n).is_dir ==> rolled(n).words == words_sum(rolled(n).children),
        !n.is_dir ==> rolled(n) == n,
        rolled(n).is_dir ==> rolled(n).children == rolled_all(n.children),
{
}

/// Adding up twice gives what adding up once gave.
pub proof fn law_rollup_settles(n: NodeSpec)
    ensures
        rolled(rolled(n)) == rolled(n),
    decreases n, 1nat,
{
    if n.is_dir {
        lemma_rolled_all_settles(n.children);
        assert(rolled(rolled(n)).children == rolled_all(rolled_all(n.children)));
    }
}

proof fn lemma_rolled_all_settles(s: Seq<NodeSpec>)
    ensures
        rolled_all(rolled_all(s)) == rolled_all(s),
    decreases s, 0nat,
{
    lemma_rolled_all(s);
    lemma_rolled_all(rolled_all(s));
    assert forall|k: int| 0 <= k < s.len() implies #[trigger] rolled(rolled(s[k])) == rolled(s[k]) by {
        law_rollup_settles(s[k]);
    }
    assert forall|k: int| 0 <= k < s.len() implies rolled_all(rolled_all(s))[k] == rolled_all(s)[k] by {
        assert(rolled_all(rolled_all(s))[k] == rolled(rolled_all(s)[k]));
        assert(rolled(rolled(s[k])) == rolled(s[k]));
    }
    assert(rolled_all(rolled_all(s)) =~= rolled_all(s));
}
} // verus!
