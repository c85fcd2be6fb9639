//! The skill tree as the control plane reads it: skills are listed in
//! pre-order (a node before its children, children in order), optionally only
//! those a user or a model may invoke, and a skill's dotpath is found by its
//! name.
use vstd::prelude::*;

verus! {

/// A node of the skill tree: the skill's place (its dotpath), its name and
/// who may invoke it, and the nodes below it.
pub struct SkillNode {
    pub dotpath: String,
    pub name: String,
    pub user_invocable: bool,
    pub model_invocable: bool,
    pub children: Vec<SkillNode>,
}

/// A listed skill: dotpath, name, and whether a user and a model may invoke it.
pub struct SkillEntry {
    pub dotpath: String,
    pub name: String,
    pub user_invocable: bool,
    pub model_invocable: bool,
}

/// A skill as listed: (dotpath, name, user-invocable, model-invocable).
pub type EntryView = (Seq<char>, Seq<char>, bool, bool);

/// The listing of a node.
pub open spec fn node_entry(n: SkillNode) -> EntryView {
    (n.dotpath@, n.name@, n.user_invocable, n.model_invocable)
}

/// The listing of an entry.
pub open spec fn entry_view(e: SkillEntry) -> EntryView {
    (e.dotpath@, e.name@, e.user_invocable, e.model_invocable)
}

/// The listings of a sequence of entries.
pub open spec fn entry_views(s: Seq<SkillEntry>) -> Seq<EntryView> {
    s.map_values(|e: SkillEntry| entry_view(e))
}

/// The skills of the tree under `n`, in pre-order.
pub open spec fn preorder(n: SkillNode) -> Seq<EntryView>
    decreases n, 0nat,
{
    seq![node_entry(n)] + preorder_all(n.children@, n.children@.len() as int)
}

/// The skills of the first `k` trees of `cs`, in order, each in pre-order.
pub open spec fn preorder_all(cs: Seq<SkillNode>, k: int) -> Seq<EntryView>
    decreases cs, k,
{
    if k <= 0 || k > cs.len() {
        Seq::empty()
    } else {
        preorder_all(cs, k - 1) + preorder(cs[k - 1])
    }
}

/// The skills of a tree that may be empty.
pub open spec fn preorder_opt(root: Option<SkillNode>) -> Seq<EntryView> {
    match root {
        Some(n) => preorder(n),
        None => Seq::empty(),
    }
}

/// Whether a listed skill passes the filters: only user-invocable ones when
/// `user_only`, only model-invocable ones when `model_only`.
pub open spec fn passes(e: EntryView, user_only: bool, model_only: bool) -> bool {
    (!user_only || e.2) && (!model_only || e.3)
}

/// The skills of `s` that pass the filters, in order.
pub open spec fn filtered(s: Seq<EntryView>, user_only: bool, model_only: bool) -> Seq<EntryView>
    decreases s.len(),
{
    if s.len() == 0 {
        Seq::empty()
    } else if passes(s.last(), user_only, model_only) {
        filtered(s.drop_last(), user_only, model_only).push(s.last())
    } else {
        filtered(s.drop_last(), user_only, model_only)
    }
}

/// The dotpath of the first skill of `s` named `name`.
pub open spec fn first_dotpath(s: Seq<EntryView>, name: Seq<char>) -> Option<Seq<char>>
    decreases s.len(),
{
    if s.len() == 0 {
        None
    } else if s[0].1 == name {
        Some(s[0].0)
    } else {
        first_dotpath(s.drop_first(), name)
    }
}

/// The first match in `a + b` is the first in `a`, or else the first in `b`.
proof fn lemma_first_dotpath_concat(a: Seq<EntryView>, b: Seq<EntryView>, name: Seq<char>)
    ensures
        first_dotpath(a + b, name) == match first_dotpath(a, name) {
            Some(d) => Some(d),
            None => first_dotpath(b, name),
        },
    decreases a.len(),
{
    if a.len() == 0 {
        assert(a + b =~= b);
    } else {
        assert((a + b).drop_first() =~= a.drop_first() + b);
        assert((a + b)[0] == a[0]);
        lemma_first_dotpath_concat(a.drop_first(), b, name);
    }
}

/// A copy of `e`'s listing.
fn entry_of(n: &SkillNode) -> (e: SkillEntry)
    ensures
        entry_view(e) == node_entry(*n),
{
    SkillEntry {
        dotpath: n.dotpath.clone(),
        name: n.name.clone(),
        user_invocable: n.user_invocable,
        model_invocable: n.model_invocable,
    }
}

/// Appends the skills of the tree under `node`, in pre-order, to `out`.
fn flatten_node(node: &SkillNode, out: &mut Vec<SkillEntry>)
    ensures
        entry_views(final(out)@) == entry_views(old(out)@) + preorder(*node),
    decreases node,
{
    let ghost base = entry_views(out@);
    out.push(entry_of(node));
    assert(entry_views(out@) =~= base + seq![node_entry(*node)]);
    let mut i: usize = 0;
    while i < node.children.len()
        invariant
            i <= node.children@.len(),
            entry_views(out@) == base + seq![node_entry(*node)] + preorder_all(
                node.children@,
                i as int,
            ),
        decreases node.children@.len() - i,
    {
        let ghost before = entry_views(out@);
        assert(decreases_to!(node => node.children@[i as int]));
        flatten_node(&node.children[i], out);
        assert(preorder_all(node.children@, i as int + 1) == preorder_all(node.children@, i as int)
            + preorder(node.children@[i as int]));
        i = i + 1;
        assert(entry_views(out@) =~= base + seq![node_entry(*node)] + preorder_all(
            node.children@,
            i as int,
        ));
    }
    assert(entry_views(out@) =~= base + preorder(*node));
}

/// The skills of the tree, in pre-order, that pass the filters.
pub fn list_skills(root: Option<&SkillNode>, user_only: bool, model_only: bool) -> (r: Vec<
    SkillEntry,
>)
    ensures
        entry_views(r@) == filtered(
            preorder_opt(
                match root {
                    Some(n) => Some(*n),
                    None => None,
                },
            ),
            user_only,
            model_only,
        ),
{
    let mut all: Vec<SkillEntry> = Vec::new();
    match root {
        Some(n) => {
            flatten_node(n, &mut all);
            assert(entry_views(all@) =~= preorder(*n));
        },
        None => {
            assert(entry_views(all@) =~= Seq::<EntryView>::empty());
        },
    }
    let ghost s = entry_views(all@);
    let mut kept: Vec<SkillEntry> = Vec::new();
    assert(entry_views(kept@) =~= filtered(s.take(0), user_only, model_only));
    let mut i: usize = 0;
    while i < all.len()
        invariant
            s == entry_views(all@),
            i <= all@.len(),
            entry_views(kept@) == filtered(s.take(i as int), user_only, model_only),
        decreases all.len() - i,
    {
        let e = &all[i];
        assert(s.take(i as int + 1).drop_last() =~= s.take(i as int));
        assert(s.take(i as int + 1).last() == entry_view(*e));
        if (!user_only || e.user_invocable) && (!model_only || e.model_invocable) {
            let ghost before = entry_views(kept@);
            kept.push(
                SkillEntry {
                    dotpath: e.dotpath.clone(),
                    name: e.name.clone(),
                    user_invocable: e.user_invocable,
                    model_invocable: e.model_invocable,
                },
            );
            assert(entry_views(kept@) =~= before.push(entry_view(*e)));
        }
        i = i + 1;
    }
    assert(s.take(s.len() as int) =~= s);
    kept
}

/// The view of an optional text.
pub open spec fn opt_text(o: Option<String>) -> Option<Seq<char>> {
    match o {
        Some(s) => Some(s@),
        None => None,
    }
}

/// The dotpath of the first skill named `name` in the tree under `node`,
/// in pre-order.
fn find_dotpath_node(node: &SkillNode, name: &String) -> (r: Option<String>)
    ensures
        opt_text(r) == first_dotpath(preorder(*node), name@),
    decreases node,
{
    let ghost rest = preorder_all(node.children@, node.children@.len() as int);
    proof {
        lemma_first_dotpath_concat(seq![node_entry(*node)], rest, name@);
        assert(seq![node_entry(*node)].drop_first() =~= Seq::<EntryView>::empty());
    }
    if node.name == *name {
        return Some(node.dotpath.clone());
    }
    assert(node_entry(*node).1 != name@);
    assert(first_dotpath(seq![node_entry(*node)].drop_first(), name@) is None);
    assert(first_dotpath(seq![node_entry(*node)], name@) is None);
    assert(preorder(*node) == seq![node_entry(*node)] + rest);
    assert(first_dotpath(preorder(*node), name@) == first_dotpath(rest, name@));
    assert(preorder_all(node.children@, 0) =~= Seq::<EntryView>::empty());
    let mut i: usize = 0;
    while i < node.children.len()
        invariant
            i <= node.children@.len(),
            rest == preorder_all(node.children@, node.children@.len() as int),
            first_dotpath(preorder(*node), name@) == first_dotpath(rest, name@),
            first_dotpath(preorder_all(node.children@, i as int), name@) is None,
        decreases node.children@.len() - i,
    {
        assert(decreases_to!(node => node.children@[i as int]));
        let found = find_dotpath_node(&node.children[i], name);
        proof {
            assert(preorder_all(node.children@, i as int + 1) == preorder_all(node.children@, i as int)
                + preorder(node.children@[i as int]));
            lemma_first_dotpath_concat(
                preorder_all(node.children@, i as int),
                preorder(node.children@[i as int]),
                name@,
            );
        }
        if found.is_some() {
            proof {
                lemma_prefix_first(node.children@, i as int + 1, name@);
            }
            return found;
        }
        i = i + 1;
    }
    None
}

/// Once the first `k` trees hold a match, the first match of all the trees
/// is that one.
proof fn lemma_prefix_first(cs: Seq<SkillNode>, k: int, name: Seq<char>)
    requires
        0 <= k <= cs.len(),
        first_dotpath(preorder_all(cs, k), name) is Some,
    ensures
        first_dotpath(preorder_all(cs, cs.len() as int), name) == first_dotpath(
            preorder_all(cs, k),
            name,
        ),
    decreases cs.len() - k,
{
    if k < cs.len() {
        assert(preorder_all(cs, k + 1) == preorder_all(cs, k) + preorder(cs[k]));
        lemma_first_dotpath_concat(preorder_all(cs, k), preorder(cs[k]), name);
        lemma_prefix_first(cs, k + 1, name);
    }
}

/// The dotpath of the first skill named `name`, in pre-order, if any.
pub fn find_dotpath(root: Option<&SkillNode>, name: &str) -> (r: Option<String>)
    ensures
        opt_text(r) == first_dotpath(
            preorder_opt(
                match root {
                    Some(n) => Some(*n),
                    None => None,
                },
            ),
            name@,
        ),
{
    match root {
        Some(n) => {
            let key = String::from_str(name);
            find_dotpath_node(n, &key)
        },
        None => None,
    }
}

/// A dotpath is found for a name exactly when some listed skill has that
/// name, and it is the dotpath of the first such skill.
pub proof fn law_found_iff_listed(s: Seq<EntryView>, name: Seq<char>)
    ensures
        first_dotpath(s, name) is Some <==> exists|i: int| 0 <= i < s.len() && #[trigger] s[i].1 == name,
        first_dotpath(s, name) matches Some(d) ==> exists|i: int|
            0 <= i < s.len() && #[trigger] s[i].1 == name && s[i].0 == d && forall|j: int|
                0 <= j < i ==> s[j].1 != name,
    decreases s.len(),
{
    if s.len() > 0 {
        let t = s.drop_first();
        law_found_iff_listed(t, name);
        if s[0].1 != name {
            if exists|i: int| 0 <= i < s.len() && #[trigger] s[i].1 == name {
                let i = choose|i: int| 0 <= i < s.len() && #[trigger] s[i].1 == name;
                assert(t[i - 1].1 == name);
            }
            if first_dotpath(t, name) is Some {
                let i = choose|i: int|
                    0 <= i < t.len() && #[trigger] t[i].1 == name && t[i].0 == first_dotpath(t, name)->0
                        && forall|j: int| 0 <= j < i ==> t[j].1 != name;
                assert(s[i + 1] == t[i]);
                assert forall|j: int| 0 <= j < i + 1 implies s[j].1 != name by {
                    if j > 0 {
                        assert(s[j] == t[j - 1]);
                    }
                }
            }
        }
    }
}

/// Without filters, every skill is listed.
pub proof fn law_unfiltered_lists_all(s: Seq<EntryView>)
    ensures
        filtered(s, false, false) == s,
    decreases s.len(),
{
    if s.len() > 0 {
        law_unfiltered_lists_all(s.drop_last());
        assert(s.drop_last().push(s.last()) =~= s);
    }
}

} // verus!
