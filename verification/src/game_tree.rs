//! The variation tree: an arena of positions connected by recorded
//! moves, with a navigable focus, branch promotion and deletion, and a
//! line-oriented persistence format.

use vstd::prelude::*;
use crate::board::{
    step_in_range, try_move, try_move_spec, Board, BoardView, Step,
};
use crate::fen::{fen_of, parse_fen_spec, read_fen, write_fen};
use crate::piece::PieceColor;
use crate::step::{read_step, read_step_spec, san_of, write_step};
use crate::text::{
    chars_eq, chars_string, comma_split, comma_split_spec, dec_digits, lines_chars, lines_spec,
    parse_usize, parse_usize_opt, parse_usize_opt_spec, parse_usize_spec, push_char, split_char,
    split_char_exec, str_chars, subrange_chars, trim_chars, trim_spec, usize_to_string,
};

verus! {

/// The label of a recorded transition: ply number, SAN text, and the
/// mover's color.
pub struct MoveData {
    pub ply: usize,
    pub san: String,
    pub color: PieceColor,
}

/// The model of a move label.
#[verifier::ext_equal]
pub struct MoveDataView {
    pub ply: usize,
    pub san: Seq<char>,
    pub color: PieceColor,
}

impl View for MoveData {
    type V = MoveDataView;

    open spec fn view(&self) -> MoveDataView {
        MoveDataView { ply: self.ply, san: self.san@, color: self.color }
    }
}

impl Clone for MoveData {
    /// A structural copy: the clone models the same label.
    fn clone(&self) -> (r: Self)
        ensures
            r@ == self@,
    {
        MoveData { ply: self.ply, san: self.san.clone(), color: self.color }
    }
}

/// One node of the tree: its position, its ordered children (the first
/// entry is the mainline continuation), and its parent.
pub struct GameTreeNode {
    pub board: Board,
    pub sons: Vec<(Step, usize, MoveData)>,
    pub parent: Option<usize>,
}

/// The model of a node.
#[verifier::ext_equal]
pub struct NodeView {
    pub board: BoardView,
    pub sons: Seq<(Step, usize, MoveDataView)>,
    pub parent: Option<usize>,
}

impl View for GameTreeNode {
    type V = NodeView;

    open spec fn view(&self) -> NodeView {
        NodeView {
            board: self.board@,
            sons: self.sons@.map_values(|e: (Step, usize, MoveData)| (e.0, e.1, e.2@)),
            parent: self.parent,
        }
    }
}

impl GameTreeNode {
    /// A fresh node holding a position, with no children and no parent.
    pub fn new(board: Board) -> (r: Self)
        ensures
            r@.board == board@,
            r@.sons == Seq::<(Step, usize, MoveDataView)>::empty(),
            r@.parent is None,
    {
        let r = GameTreeNode { board, sons: Vec::new(), parent: None };
        proof {
            assert(r@.sons =~= Seq::<(Step, usize, MoveDataView)>::empty());
        }
        r
    }
}

impl Clone for GameTreeNode {
    /// A structural copy: the clone models the same node.
    #[verifier::loop_isolation(false)]
    fn clone(&self) -> (r: Self)
        ensures
            r@ == self@,
    {
        let ghost f = |e: (Step, usize, MoveData)| (e.0, e.1, e.2@);
        let mut sons: Vec<(Step, usize, MoveData)> = Vec::new();
        let mut k: usize = 0;
        while k < self.sons.len()
            invariant
                k <= self.sons@.len(),
                sons@.map_values(f) == self.sons@.map_values(f).take(k as int),
            decreases self.sons@.len() - k,
        {
            let entry = &self.sons[k];
            sons.push((entry.0, entry.1, entry.2.clone()));
            proof {
                assert(sons@.map_values(f) =~= self.sons@.map_values(f).take(k + 1));
            }
            k = k + 1;
        }
        proof {
            assert(self.sons@.map_values(f).take(self.sons@.len() as int) =~= self.sons@.map_values(
                f,
            ));
            assert(sons@.map_values(|e: (Step, usize, MoveData)| (e.0, e.1, e.2@)) == sons@.map_values(f));
        }
        let r = GameTreeNode { board: self.board.clone(), sons, parent: self.parent };
        proof {
            assert(r@ =~= self@);
        }
        r
    }
}

/// The model of a variation tree: the arena, the root index, and the
/// focus index.
#[verifier::ext_equal]
pub struct TreeView {
    pub nodes: Seq<NodeView>,
    pub root: usize,
    pub focus: usize,
}

/// A variation tree: an arena of nodes, a fixed root, and a mutable
/// focus denoting the currently displayed node.
pub struct GameTree {
    pub nodes: Vec<GameTreeNode>,
    pub root: usize,
    pub focus: usize,
}

impl View for GameTree {
    type V = TreeView;

    open spec fn view(&self) -> TreeView {
        TreeView {
            nodes: self.nodes@.map_values(|n: GameTreeNode| n@),
            root: self.root,
            focus: self.focus,
        }
    }
}

impl TreeView {
    /// Node `p` has a child entry naming node `i`.
    pub open spec fn has_son_entry(self, p: int, i: int) -> bool {
        exists|k: int| 0 <= k < self.nodes[p].sons.len() && (#[trigger] self.nodes[p].sons[k]).1 == i
    }

    /// The structural invariant of one node: every child entry names a
    /// node deeper in the arena whose parent link points back here,
    /// children are distinct, and the position is well-formed.
    pub open spec fn node_wf(self, i: int) -> bool {
        &&& forall|k: int|
            0 <= k < self.nodes[i].sons.len() ==> i < (#[trigger] self.nodes[i].sons[k]).1
                < self.nodes.len()
        &&& forall|k: int|
            0 <= k < self.nodes[i].sons.len() ==> self.nodes[(
            #[trigger] self.nodes[i].sons[k]).1 as int].parent == Some(i as usize)
        &&& forall|k1: int, k2: int|
            0 <= k1 < k2 < self.nodes[i].sons.len() ==> (#[trigger] self.nodes[i].sons[k1]).1 != (
            #[trigger] self.nodes[i].sons[k2]).1
        &&& self.nodes[i].board.grid_wf()
    }

    /// The structural invariant of the whole tree: the arena forms a
    /// rooted tree at index 0, parent links go to shallower indices and
    /// match child entries, and the focus is a node of the arena.
    pub open spec fn wf(self) -> bool {
        &&& self.nodes.len() >= 1
        &&& self.root == 0
        &&& (self.focus as int) < self.nodes.len()
        &&& self.nodes[0].parent is None
        &&& forall|i: int|
            1 <= i < self.nodes.len() ==> ((#[trigger] self.nodes[i].parent) matches Some(p) && (
            p as int) < i)
        &&& forall|i: int|
            1 <= i < self.nodes.len() ==> self.has_son_entry(
                (#[trigger] self.nodes[i].parent)->0 as int,
                i,
            )
        &&& forall|i: int| 0 <= i < self.nodes.len() ==> self.node_wf(i)
    }
}

/// The first child entry of node `i` reached by exactly this step, at
/// or after child position `k`.
pub open spec fn first_son_from(t: TreeView, i: int, step: Step, k: int) -> Option<usize>
    decreases t.nodes[i].sons.len() - k,
{
    if k < 0 || k >= t.nodes[i].sons.len() {
        None
    } else if t.nodes[i].sons[k].0 == step {
        Some(t.nodes[i].sons[k].1)
    } else {
        first_son_from(t, i, step, k + 1)
    }
}

/// Whether attempting `step` at the focus succeeds: an existing child
/// is reused, or the move is legal and the counters leave room.
pub open spec fn tree_step_ok(t: TreeView, step: Step) -> bool {
    let b = t.nodes[t.focus as int].board;
    ||| first_son_from(t, t.focus as int, step, 0) is Some
    ||| (step_in_range(step) && b.san_room() && try_move_spec(b, step) is Some)
}

/// The tree after attempting `step` at the focus: focus moves to an
/// existing child reached by the same step, or a new node with the
/// resulting position is appended and focus moves there; an illegal
/// move leaves the tree unchanged.
pub open spec fn tree_step_spec(t: TreeView, step: Step) -> TreeView {
    let f = t.focus as int;
    let node = t.nodes[f];
    let b = node.board;
    match first_son_from(t, f, step, 0) {
        Some(j) => TreeView { focus: j, ..t },
        None => {
            if !(step_in_range(step) && b.san_room()) {
                t
            } else {
                match try_move_spec(b, step) {
                    None => t,
                    Some(nb) => {
                        let new_index = t.nodes.len() as usize;
                        let md = MoveDataView {
                            ply: b.fullmove,
                            san: san_of(b, step)->0,
                            color: b.active,
                        };
                        let node2 = NodeView { sons: node.sons.push((step, new_index, md)), ..node };
                        let child = NodeView {
                            board: nb,
                            sons: Seq::empty(),
                            parent: Some(t.focus),
                        };
                        TreeView {
                            nodes: t.nodes.update(f, node2).push(child),
                            focus: new_index,
                            root: t.root,
                        }
                    },
                }
            }
        },
    }
}

/// Changing only the focus to another node of the arena keeps the
/// tree well formed.
pub proof fn lemma_wf_focus(t: TreeView, f2: usize)
    requires
        t.wf(),
        (f2 as int) < t.nodes.len(),
    ensures
        (TreeView { focus: f2, ..t }).wf(),
{
    let nt = TreeView { focus: f2, ..t };
    assert(nt.nodes == t.nodes);
    assert forall|i: int|
        1 <= i < nt.nodes.len() implies ((#[trigger] nt.nodes[i].parent) matches Some(p) && (
    p as int) < i) by {
        assert((t.nodes[i].parent matches Some(p) && (p as int) < i));
    }
    assert forall|i: int|
        1 <= i < nt.nodes.len() implies nt.has_son_entry(
        (#[trigger] nt.nodes[i].parent)->0 as int,
        i,
    ) by {
        assert(t.has_son_entry(t.nodes[i].parent->0 as int, i));
        let p = t.nodes[i].parent->0 as int;
        let k = choose|k: int|
            0 <= k < t.nodes[p].sons.len() && (#[trigger] t.nodes[p].sons[k]).1 == i;
        assert((nt.nodes[p].sons[k]).1 == i);
    }
    assert forall|i: int| 0 <= i < nt.nodes.len() implies nt.node_wf(i) by {
        assert(t.node_wf(i));
    }
}

impl GameTree {
    /// A tree of a single root node holding the given position.
    pub fn new(board: Board) -> (r: Self)
        requires
            board@.grid_wf(),
        ensures
            r@.wf(),
            r@.nodes.len() == 1,
            r@.nodes[0].board == board@,
            r@.nodes[0].sons == Seq::<(Step, usize, MoveDataView)>::empty(),
            r@.focus == 0,
            r@.root == 0,
    {
        let mut nodes: Vec<GameTreeNode> = Vec::new();
        nodes.push(GameTreeNode::new(board));
        let r = GameTree { nodes, root: 0, focus: 0 };
        proof {
            assert(r@.nodes[0].sons =~= Seq::<(Step, usize, MoveDataView)>::empty());
        }
        r
    }

    /// The position at the focus.
    pub fn board(&self) -> (r: Board)
        requires
            self@.wf(),
        ensures
            r@ == self@.nodes[self@.focus as int].board,
    {
        self.nodes[self.focus].board.clone()
    }

    /// The focus sits at the root.
    pub fn is_first_board(&self) -> (r: bool)
        requires
            self@.wf(),
        ensures
            r == (self@.focus == self@.root),
    {
        self.focus == self.root
    }

    /// The focus has no continuation.
    pub fn is_last_board(&self) -> (r: bool)
        requires
            self@.wf(),
        ensures
            r == (self@.nodes[self@.focus as int].sons.len() == 0),
    {
        self.nodes[self.focus].sons.len() == 0
    }

    /// Moves the focus to the root.
    #[verifier::loop_isolation(false)]
    pub fn move_to_start(&mut self)
        requires
            old(self)@.wf(),
        ensures
            final(self)@.nodes == old(self)@.nodes,
            final(self)@.root == old(self)@.root,
            final(self)@.focus == 0,
            final(self)@.wf(),
    {
        let mut cur_parent = self.nodes[self.focus].parent;
        while cur_parent.is_some()
            invariant
                self@.nodes == old(self)@.nodes,
                self@.root == old(self)@.root,
                (self@.focus as int) < self@.nodes.len(),
                cur_parent == self@.nodes[self@.focus as int].parent,
            decreases self.focus,
        {
            let p = match cur_parent {
                Some(p) => p,
                None => 0,
            };
            self.focus = p;
            cur_parent = self.nodes[self.focus].parent;
        }
        proof {
            if self@.focus != 0 {
                assert(self@.nodes[self@.focus as int].parent is Some);
                assert(false);
            }
            lemma_wf_focus(old(self)@, self.focus);
            assert(self@ =~= (TreeView { focus: self@.focus, ..old(self)@ }));
        }
    }

    /// Moves the focus one step toward the root; a no-op at the root.
    pub fn move_backward(&mut self)
        requires
            old(self)@.wf(),
        ensures
            final(self)@.nodes == old(self)@.nodes,
            final(self)@.root == old(self)@.root,
            final(self)@.focus == (match old(self)@.nodes[old(self)@.focus as int].parent {
                Some(p) => p,
                None => old(self)@.focus,
            }),
            final(self)@.wf(),
    {
        if let Some(parent) = self.nodes[self.focus].parent {
            self.focus = parent;
            proof {
                assert(old(self)@.nodes[0].parent is None);
                assert(old(self)@.focus != 0);
                assert((old(self)@.nodes[old(self)@.focus as int].parent matches Some(p) && (
                p as int) < old(self)@.focus as int));
            }
        }
        proof {
            lemma_wf_focus(old(self)@, self.focus);
            assert(self@ =~= (TreeView { focus: self@.focus, ..old(self)@ }));
        }
    }

    /// Moves the focus to its mainline continuation; a no-op at a leaf.
    pub fn move_forward(&mut self)
        requires
            old(self)@.wf(),
        ensures
            final(self)@.nodes == old(self)@.nodes,
            final(self)@.root == old(self)@.root,
            final(self)@.focus == (if old(self)@.nodes[old(self)@.focus as int].sons.len() > 0 {
                old(self)@.nodes[old(self)@.focus as int].sons[0].1
            } else {
                old(self)@.focus
            }),
            final(self)@.wf(),
    {
        if self.nodes[self.focus].sons.len() > 0 {
            let j = self.nodes[self.focus].sons[0].1;
            proof {
                assert(old(self)@.node_wf(old(self)@.focus as int));
                assert(j == old(self)@.nodes[old(self)@.focus as int].sons[0].1);
                assert((j as int) < old(self)@.nodes.len());
            }
            self.focus = j;
        }
        proof {
            lemma_wf_focus(old(self)@, self.focus);
            assert(self@ =~= (TreeView { focus: self@.focus, ..old(self)@ }));
        }
    }

    /// Moves the focus along the mainline to its end.
    #[verifier::loop_isolation(false)]
    pub fn move_to_end(&mut self)
        requires
            old(self)@.wf(),
        ensures
            final(self)@.nodes == old(self)@.nodes,
            final(self)@.root == old(self)@.root,
            final(self)@.focus == mainline_leaf(old(self)@, old(self)@.focus as int),
            final(self)@.wf(),
    {
        while self.nodes[self.focus].sons.len() > 0
            invariant
                self@.nodes == old(self)@.nodes,
                self@.root == old(self)@.root,
                (self@.focus as int) < self@.nodes.len(),
                mainline_leaf(old(self)@, old(self)@.focus as int) == mainline_leaf(
                    old(self)@,
                    self@.focus as int,
                ),
            decreases self@.nodes.len() - self@.focus,
        {
            proof {
                assert(old(self)@.node_wf(self@.focus as int));
            }
            self.focus = self.nodes[self.focus].sons[0].1;
        }
        proof {
            lemma_wf_focus(old(self)@, self.focus);
            assert(self@ =~= (TreeView { focus: self@.focus, ..old(self)@ }));
        }
    }

    /// Attempts a move at the focus: reuses an existing child reached
    /// by the same step, else applies the move, records a new labeled
    /// node, and advances the focus; returns whether anything moved.
    #[verifier::loop_isolation(false)]
    pub fn try_move(&mut self, step: Step) -> (r: bool)
        requires
            old(self)@.wf(),
        ensures
            final(self)@ == tree_step_spec(old(self)@, step),
            r == tree_step_ok(old(self)@, step),
            final(self)@.wf(),
    {
        let ghost t = self@;
        let focus = self.focus;
        let n = self.nodes[focus].sons.len();
        let mut k: usize = 0;
        while k < n
            invariant
                n == t.nodes[t.focus as int].sons.len(),
                k <= n,
                self@ == t,
                focus == t.focus,
                first_son_from(t, t.focus as int, step, 0) == first_son_from(
                    t,
                    t.focus as int,
                    step,
                    k as int,
                ),
            decreases n - k,
        {
            let entry_step = self.nodes[focus].sons[k].0;
            let entry_son = self.nodes[focus].sons[k].1;
            if entry_step == step {
                proof {
                    assert(t.node_wf(t.focus as int));
                }
                self.focus = entry_son;
                proof {
                    assert(self@ =~= tree_step_spec(t, step));
                    lemma_wf_focus(t, entry_son);
                    assert(self@ =~= (TreeView { focus: entry_son, ..t }));
                }
                return true;
            }
            k = k + 1;
        }
        if !(step.from.0 < 8 && step.from.1 < 8 && step.to.0 < 8 && step.to.1 < 8) {
            return false;
        }
        let b_half = self.nodes[focus].board.halfmove;
        let b_full = self.nodes[focus].board.fullmove;
        if !(b_half < usize::MAX - 1 && b_full < usize::MAX - 1) {
            return false;
        }
        proof {
            assert(t.node_wf(t.focus as int));
            assert(self@.nodes[focus as int].board.grid_wf());
        }
        let new_board = match try_move(&self.nodes[focus].board, step) {
            Some(b) => b,
            None => {
                return false;
            },
        };
        let san = match write_step(&self.nodes[focus].board, step) {
            Some(s) => s,
            None => {
                proof {
                    assert(false);
                }
                return false;
            },
        };
        let new_index = self.nodes.len();
        let md = MoveData { ply: b_full, san, color: self.nodes[focus].board.active_color };
        let mut child = GameTreeNode::new(new_board);
        child.parent = Some(focus);
        self.nodes.push(child);
        let entry = (step, new_index, md);
        self.nodes[focus].sons.push(entry);
        self.focus = new_index;
        proof {
            let ghost f = |e: (Step, usize, MoveData)| (e.0, e.1, e.2@);
            assert(self@.nodes[focus as int].sons =~= t.nodes[focus as int].sons.push(
                (step, new_index, MoveDataView {
                    ply: b_full,
                    san: san_of(t.nodes[focus as int].board, step)->0,
                    color: t.nodes[focus as int].board.active,
                }),
            ));
            assert(self@ =~= tree_step_spec(t, step));
            let nt = self@;
            assert forall|i: int| 1 <= i < nt.nodes.len() implies ((#[trigger] nt.nodes[i].parent)
                matches Some(p) && (p as int) < i) by {
                if i < t.nodes.len() as int {
                    assert((t.nodes[i].parent matches Some(p) && (p as int) < i));
                }
            }
            assert forall|i: int| 1 <= i < nt.nodes.len() implies nt.has_son_entry(
                (#[trigger] nt.nodes[i].parent)->0 as int,
                i,
            ) by {
                if i < t.nodes.len() as int {
                    assert(t.has_son_entry(t.nodes[i].parent->0 as int, i));
                    let p = t.nodes[i].parent->0 as int;
                    let k0 = choose|k0: int|
                        0 <= k0 < t.nodes[p].sons.len() && (#[trigger] t.nodes[p].sons[k0]).1 == i;
                    assert(nt.nodes[p].sons[k0].1 == i);
                } else {
                    assert(nt.nodes[focus as int].sons[nt.nodes[focus as int].sons.len() - 1].1
                        == i);
                }
            }
            assert forall|i: int| 0 <= i < nt.nodes.len() implies nt.node_wf(i) by {
                if i < t.nodes.len() as int {
                    assert(t.node_wf(i));
                    if i == focus as int {
                        assert(forall|k0: int|
                            0 <= k0 < t.nodes[i].sons.len() ==> nt.nodes[i].sons[k0] == t.nodes[
                            i].sons[k0]);
                    }
                }
            }
            assert(nt.wf());
        }
        true
    }

    /// Builds the move list of the line from the root down to node `i`.
    #[verifier::loop_isolation(false)]
    fn pgn_rec(&self, i: usize) -> (r: String)
        requires
            self@.wf(),
            (i as int) < self@.nodes.len(),
        ensures
            r@ == pgn_seq(self@, i as int),
        decreases i,
    {
        let ghost t = self@;
        let p = match self.nodes[i].parent {
            None => {
                proof {
                    assert(pgn_seq(t, i as int) =~= Seq::<char>::empty());
                }
                return String::new();
            },
            Some(p) => p,
        };
        proof {
            assert(t.nodes[0].parent is None);
            assert(i != 0);
            assert((t.nodes[i as int].parent matches Some(pp) && (pp as int) < i as int));
        }
        let mut out = if p != 0 {
            let mut o = self.pgn_rec(p);
            push_char(&mut o, ' ');
            o
        } else {
            String::new()
        };
        let ghost prefix = out@;
        let n = self.nodes[p].sons.len();
        let mut k: usize = 0;
        while k < n
            invariant
                k <= n,
                n == t.nodes[p as int].sons.len(),
                out@ == prefix,
                son_entry_from(t, p as int, i as int, 0) == son_entry_from(
                    t,
                    p as int,
                    i as int,
                    k as int,
                ),
            decreases n - k,
        {
            if self.nodes[p].sons[k].1 == i {
                let ply = self.nodes[p].sons[k].2.ply;
                let san = self.nodes[p].sons[k].2.san.clone();
                let color = self.nodes[p].sons[k].2.color;
                let ghost e = t.nodes[p as int].sons[k as int];
                proof {
                    assert(e.1 == i);
                    assert(son_entry_from(t, p as int, i as int, k as int) == Some(e));
                    assert(e.2.san == san@ && e.2.ply == ply && e.2.color == color);
                }
                match color {
                    PieceColor::White => {
                        let num = usize_to_string(ply);
                        out.append(num.as_str());
                        push_char(&mut out, '.');
                        out.append(san.as_str());
                    },
                    PieceColor::Black => {
                        out.append(san.as_str());
                    },
                }
                proof {
                    assert(out@ =~= prefix + edge_label(t, p as int, i as int));
                    assert(out@ =~= pgn_seq(t, i as int));
                }
                return out;
            }
            k = k + 1;
        }
        proof {
            assert(t.has_son_entry(p as int, i as int));
            let k0 = choose|k0: int|
                0 <= k0 < t.nodes[p as int].sons.len() && (#[trigger] t.nodes[p as int].sons[k0]).1
                    == i as int;
            lemma_son_entry_found(t, p as int, i as int, k0);
            assert(false);
        }
        out
    }

    /// Returns the move list of the line from the root down to the
    /// given node, each edge labeled with its ply-prefixed SAN.
    pub fn pgn(&self, current: usize) -> (r: String)
        requires
            self@.wf(),
            (current as int) < self@.nodes.len(),
        ensures
            r@ == pgn_seq(self@, current as int),
    {
        self.pgn_rec(current)
    }

    /// Promotes the given node to be its parent's mainline
    /// continuation; a no-op at the root or when already first.
    #[verifier::loop_isolation(false)]
    pub fn promote_variation(&mut self, current: usize)
        requires
            old(self)@.wf(),
            (current as int) < old(self)@.nodes.len(),
        ensures
            final(self)@ == promote_spec(old(self)@, current as int),
            final(self)@.wf(),
    {
        let ghost t = self@;
        let parent = match self.nodes[current].parent {
            None => {
                return ;
            },
            Some(p) => p,
        };
        proof {
            assert(t.nodes[0].parent is None);
            assert(current != 0);
            assert((t.nodes[current as int].parent matches Some(pp) && (pp as int)
                < current as int));
        }
        let n = self.nodes[parent].sons.len();
        let mut pos: usize = 0;
        let mut idx: usize = 0;
        while idx < n
            invariant
                idx <= n,
                n == t.nodes[parent as int].sons.len(),
                pos as int == last_son_pos(t, parent as int, current as int, idx - 1),
                pos < n || pos == 0,
            decreases n - idx,
        {
            if self.nodes[parent].sons[idx].1 == current {
                pos = idx;
            }
            idx = idx + 1;
        }
        if pos != 0 {
            let a = (
                self.nodes[parent].sons[0].0,
                self.nodes[parent].sons[0].1,
                self.nodes[parent].sons[0].2.clone(),
            );
            let b = (
                self.nodes[parent].sons[pos].0,
                self.nodes[parent].sons[pos].1,
                self.nodes[parent].sons[pos].2.clone(),
            );
            self.nodes[parent].sons[0] = b;
            self.nodes[parent].sons[pos] = a;
            proof {
                let nt = self@;
                let sons = t.nodes[parent as int].sons;
                let swapped = sons.update(0, sons[pos as int]).update(pos as int, sons[0]);
                assert(nt.nodes[parent as int].sons =~= swapped);
                assert(nt =~= promote_spec(t, current as int));
                lemma_wf_swap_sons(t, parent as int, pos as int);
            }
        }
        proof {
            assert(self@ == promote_spec(t, current as int));
        }
    }

    /// Makes the whole path from the root to the given node the
    /// mainline, by promoting every edge along it.
    #[verifier::loop_isolation(false)]
    pub fn set_as_mainline(&mut self, current: usize)
        requires
            old(self)@.wf(),
            (current as int) < old(self)@.nodes.len(),
        ensures
            final(self)@ == mainline_spec(old(self)@, current as int),
            final(self)@.wf(),
    {
        let mut cur = current;
        while cur != 0
            invariant
                self@.wf(),
                (cur as int) < self@.nodes.len(),
                mainline_spec(old(self)@, current as int) == mainline_spec(self@, cur as int),
            decreases cur,
        {
            let ghost t = self@;
            let parent = match self.nodes[cur].parent {
                None => {
                    proof {
                        assert((t.nodes[cur as int].parent matches Some(pp) && (pp as int)
                            < cur as int));
                    }
                    return ;
                },
                Some(p) => p,
            };
            proof {
                assert((t.nodes[cur as int].parent matches Some(pp) && (pp as int) < cur as int));
            }
            self.promote_variation(cur);
            proof {
                assert(self@.nodes[cur as int].parent == t.nodes[cur as int].parent);
            }
            cur = parent;
        }
    }

    /// Writes one node's child-list line.
    #[verifier::loop_isolation(false)]
    fn sons_line(&self, i: usize) -> (r: String)
        requires
            self@.wf(),
            (i as int) < self@.nodes.len(),
        ensures
            r@ == sons_text(self@.nodes[i as int]),
    {
        let ghost node = self@.nodes[i as int];
        let n = self.nodes[i].sons.len();
        let mut out = String::new();
        if n == 0 {
            proof {
                assert(out@ =~= sons_text(node));
            }
            return out;
        }
        append_entry(&mut out, self.nodes[i].sons[0].1, &self.nodes[i].sons[0].2.san);
        proof {
            assert(out@ =~= entry_text(node.sons[0]));
        }
        let mut k: usize = 1;
        while k < n
            invariant
                1 <= k <= n,
                n == node.sons.len(),
                sons_text(node) == out@ + sons_text_rest(node, k as int),
            decreases n - k,
        {
            let ghost before = out@;
            push_char(&mut out, '|');
            append_entry(&mut out, self.nodes[i].sons[k].1, &self.nodes[i].sons[k].2.san);
            proof {
                assert(out@ =~= before + (seq!['|'] + entry_text(node.sons[k as int])));
            }
            k = k + 1;
        }
        proof {
            assert(out@ =~= sons_text(node));
        }
        out
    }

    /// Serializes the tree: a header line, the root FEN, the node
    /// count, then one child-list line per node.
    #[verifier::loop_isolation(false)]
    #[verifier::rlimit(60)]
    pub fn to_string(&self) -> (r: String)
        requires
            self@.wf(),
        ensures
            r@ == tree_text(self@),
    {
        let ghost t = self@;
        let mut out = String::from_str("[chess game tree]");
        push_char(&mut out, '\n');
        proof {
            assert(t.node_wf(0));
        }
        let fen = write_fen(self.nodes[self.root].board.clone());
        out.append(fen.as_str());
        push_char(&mut out, '\n');
        let count = usize_to_string(self.nodes.len());
        out.append(count.as_str());
        push_char(&mut out, '\n');
        let line0 = self.sons_line(0);
        out.append(line0.as_str());
        proof {
            assert(tree_text(t) =~= out@ + info_rest(t, 1));
        }
        let mut i: usize = 1;
        while i < self.nodes.len()
            invariant
                1 <= i <= t.nodes.len(),
                tree_text(t) == out@ + info_rest(t, i as int),
            decreases t.nodes.len() - i,
        {
            let ghost before = out@;
            push_char(&mut out, '\n');
            let line = self.sons_line(i);
            out.append(line.as_str());
            proof {
                assert(out@ =~= before + (seq!['\n'] + sons_text(t.nodes[i as int])));
                assert(tree_text(t) =~= out@ + info_rest(t, i + 1));
            }
            i = i + 1;
        }
        proof {
            assert(out@ =~= tree_text(t));
        }
        out
    }

    /// Builds a tree by replaying a list of SAN tokens from the
    /// standard starting position, skipping tokens that fail to decode
    /// or apply.
    #[verifier::loop_isolation(false)]
    pub fn from_pgn(steps: Vec<String>) -> (r: GameTree)
        ensures
            r@.wf(),
            r@ == replay_spec(initial_tree(), steps@.map_values(|s: String| s@), 0),
    {
        let ghost toks = steps@.map_values(|s: String| s@);
        let board = read_fen(String::from_str(crate::fen::INITIAL_FEN));
        let mut tree = GameTree::new(board);
        proof {
            assert(tree@ =~= initial_tree());
        }
        let mut i: usize = 0;
        while i < steps.len()
            invariant
                i <= toks.len(),
                tree@.wf(),
                replay_spec(initial_tree(), toks, 0) == replay_spec(tree@, toks, i as int),
            decreases toks.len() - i,
        {
            proof {
                assert(tree@.node_wf(tree@.focus as int));
            }
            let focus = tree.focus;
            let bh = tree.nodes[focus].board.halfmove;
            let bf = tree.nodes[focus].board.fullmove;
            if bh < usize::MAX - 1 && bf < usize::MAX - 1 {
                match read_step(&tree.nodes[focus].board, steps[i].clone()) {
                    Some(stp) => {
                        tree.try_move(stp);
                    },
                    None => {},
                }
            }
            i = i + 1;
        }
        tree
    }

    /// Applies one node's declared child entries to the tree being
    /// rebuilt; reports failure on a bad entry.
    #[verifier::loop_isolation(false)]
    #[verifier::rlimit(100)]
    fn apply_entries(&mut self, node_id: usize, infos: &Vec<Vec<char>>, count: usize) -> (ok: bool)
        requires
            building_inv(old(self)@, count as int),
            (node_id as int) < count,
        ensures
            ({
                let spec_r = entries_apply(
                    old(self)@,
                    node_id as int,
                    infos@.map_values(|t: Vec<char>| t@),
                    0,
                    count as int,
                );
                if ok {
                    spec_r == Some(final(self)@) && building_inv(final(self)@, count as int)
                } else {
                    spec_r is None
                }
            }),
    {
        let ghost gi = infos@.map_values(|t: Vec<char>| t@);
        let mut k: usize = 0;
        while k < infos.len()
            invariant
                k <= gi.len(),
                building_inv(self@, count as int),
                entries_apply(old(self)@, node_id as int, gi, 0, count as int) == entries_apply(
                    self@,
                    node_id as int,
                    gi,
                    k as int,
                    count as int,
                ),
            decreases gi.len() - k,
        {
            let ghost t = self@;
            let info = &infos[k];
            let ilen = info.len();
            if !(ilen >= 2 && info[0] == '(' && info[ilen - 1] == ')') {
                k = k + 1;
                continue ;
            }
            let inner = subrange_chars(info, 1, ilen - 1);
            let parts = match comma_split(&inner) {
                None => {
                    k = k + 1;
                    continue ;
                },
                Some(parts) => parts,
            };
            let son_id = match parse_usize_opt(&parts.0) {
                None => {
                    proof {
                        assert(entry_apply(t, node_id as int, gi[k as int], count as int) is None);
                    }
                    return false;
                },
                Some(v) => v,
            };
            if !(node_id < son_id && son_id < count) {
                return false;
            }
            if self.nodes[son_id].parent.is_some() {
                return false;
            }
            let bh = self.nodes[node_id].board.halfmove;
            let bf = self.nodes[node_id].board.fullmove;
            if !(bh < usize::MAX - 1 && bf < usize::MAX - 1) {
                return false;
            }
            proof {
                assert(t.node_wf(node_id as int));
            }
            let right_string = chars_string(&parts.1);
            let stp = match read_step(&self.nodes[node_id].board, right_string) {
                None => {
                    return false;
                },
                Some(stp) => stp,
            };
            proof {
                crate::step::lemma_read_step_in_range(t.nodes[node_id as int].board, parts.1@);
            }
            let nb = match try_move(&self.nodes[node_id].board, stp) {
                None => {
                    return false;
                },
                Some(nb) => nb,
            };
            let san = match write_step(&self.nodes[node_id].board, stp) {
                None => {
                    proof {
                        assert(false);
                    }
                    return false;
                },
                Some(san) => san,
            };
            let ply = self.nodes[node_id].board.fullmove;
            let color = self.nodes[node_id].board.active_color;
            self.nodes[son_id].board = nb;
            self.nodes[son_id].parent = Some(node_id);
            let md = MoveData { ply, san, color };
            self.nodes[node_id].sons.push((stp, son_id, md));
            proof {
                let nt = self@;
                assert(nt =~~= (entry_apply(t, node_id as int, gi[k as int], count as int))->0);
                assert forall|i: int|
                    1 <= i < count implies (((#[trigger] nt.nodes[i].parent) matches Some(p) && (
                p as int) < i) || nt.nodes[i].parent is None) by {
                    if i != son_id {
                        assert((((t.nodes[i].parent) matches Some(p) && (p as int) < i)
                            || t.nodes[i].parent is None));
                    }
                }
                assert forall|i: int|
                    1 <= i < count && (#[trigger] nt.nodes[i].parent) is Some implies nt.has_son_entry(
                    nt.nodes[i].parent->0 as int,
                    i,
                ) by {
                    if i == son_id {
                        assert(nt.nodes[node_id as int].sons[nt.nodes[node_id as int].sons.len()
                            - 1].1 == i);
                    } else {
                        assert(t.has_son_entry(t.nodes[i].parent->0 as int, i));
                        let p = t.nodes[i].parent->0 as int;
                        let k0 = choose|k0: int|
                            0 <= k0 < t.nodes[p].sons.len() && (#[trigger] t.nodes[p].sons[k0]).1
                                == i;
                        assert(nt.nodes[p].sons[k0].1 == i);
                    }
                }
                assert forall|i: int| 0 <= i < count implies nt.node_wf(i) by {
                    assert(t.node_wf(i));
                    if i == node_id as int {
                        assert forall|k0: int|
                            0 <= k0 < nt.nodes[i].sons.len() implies i < (
                        #[trigger] nt.nodes[i].sons[k0]).1 < nt.nodes.len() && nt.nodes[(
                        nt.nodes[i].sons[k0]).1 as int].parent == Some(i as usize) by {
                            if k0 < t.nodes[i].sons.len() {
                                assert(nt.nodes[i].sons[k0] == t.nodes[i].sons[k0]);
                                assert(t.nodes[(t.nodes[i].sons[k0]).1 as int].parent == Some(
                                    i as usize,
                                ));
                                assert((t.nodes[i].sons[k0]).1 != son_id);
                            }
                        }
                        assert forall|k1: int, k2: int|
                            0 <= k1 < k2 < nt.nodes[i].sons.len() implies (
                        #[trigger] nt.nodes[i].sons[k1]).1 != (#[trigger] nt.nodes[i].sons[k2]).1 by {
                            if k2 < t.nodes[i].sons.len() {
                                assert(nt.nodes[i].sons[k1] == t.nodes[i].sons[k1]);
                                assert(nt.nodes[i].sons[k2] == t.nodes[i].sons[k2]);
                            } else {
                                assert(nt.nodes[i].sons[k1] == t.nodes[i].sons[k1]);
                                assert(t.nodes[(t.nodes[i].sons[k1]).1 as int].parent == Some(
                                    i as usize,
                                ));
                            }
                        }
                    } else {
                        assert(nt.nodes[i].sons == t.nodes[i].sons);
                        assert forall|k0: int|
                            0 <= k0 < nt.nodes[i].sons.len() implies i < (
                        #[trigger] nt.nodes[i].sons[k0]).1 < nt.nodes.len() && nt.nodes[(
                        nt.nodes[i].sons[k0]).1 as int].parent == Some(i as usize) by {
                            assert(i < (t.nodes[i].sons[k0]).1 < t.nodes.len());
                            assert(t.nodes[(t.nodes[i].sons[k0]).1 as int].parent == Some(
                                i as usize,
                            ));
                            assert((t.nodes[i].sons[k0]).1 != son_id);
                        }
                    }
                }
                assert(building_inv(nt, count as int));
            }
            k = k + 1;
        }
        true
    }

    /// Parses a persisted tree: the header line, the root FEN, the node
    /// count, then each node's declared children decoded and applied.
    /// Yields nothing, and builds nothing, on any malformed line,
    /// invalid child index, failing SAN, or unconnected node.
    #[verifier::loop_isolation(false)]
    pub fn from_string(s: String) -> (r: Option<GameTree>)
        ensures
            match r {
                Some(tree) => from_string_spec(s@) == Some(tree@) && tree@.wf(),
                None => from_string_spec(s@) is None,
            },
    {
        let ghost ls = lines_spec(trim_spec(s@));
        let chars = str_chars(s.as_str());
        let trimmed = trim_chars(&chars);
        let lines = lines_chars(&trimmed);
        proof {
            assert(lines@.map_values(|t: Vec<char>| t@) == ls);
        }
        if lines.len() < 4 {
            return None;
        }
        let expected = str_chars("[chess game tree]");
        if !chars_eq(&lines[0], &expected) {
            return None;
        }
        let count = parse_usize(&lines[2], 0);
        if count == 0 {
            return None;
        }
        let root_board = read_fen(chars_string(&lines[1]));
        let ghost t0 = TreeView {
            nodes: Seq::new(
                count as nat,
                |i: int|
                    NodeView {
                        board: parse_fen_spec(ls[1]),
                        sons: Seq::empty(),
                        parent: None,
                    },
            ),
            root: 0,
            focus: 0,
        };
        let mut nodes: Vec<GameTreeNode> = Vec::new();
        let mut i: usize = 0;
        while i < count
            invariant
                i <= count,
                nodes@.map_values(|n: GameTreeNode| n@) == t0.nodes.take(i as int),
            decreases count - i,
        {
            let ghost f = |n: GameTreeNode| n@;
            nodes.push(GameTreeNode::new(root_board.clone()));
            proof {
                assert(nodes@.map_values(f) =~= t0.nodes.take(i + 1));
            }
            i = i + 1;
        }
        let mut tree = GameTree { nodes, root: 0, focus: 0 };
        proof {
            assert(t0.nodes.take(count as int) =~= t0.nodes);
            assert(tree@ =~= t0);
            assert forall|j: int| 0 <= j < count implies tree@.node_wf(j) by {
                assert(tree@.nodes[j].sons.len() == 0);
            }
            assert(building_inv(tree@, count as int));
        }
        let mut node_id: usize = 0;
        let mut li: usize = 3;
        while li < lines.len() && node_id < count
            invariant
                3 <= li <= ls.len(),
                node_id == li - 3,
                building_inv(tree@, count as int),
                nodes_apply(t0, ls.skip(3), 0, 0, count as int) == nodes_apply(
                    tree@,
                    ls.skip(3),
                    li - 3,
                    node_id as int,
                    count as int,
                ),
            decreases ls.len() - li,
        {
            let ghost t_before = tree@;
            let infos = split_char_exec(&lines[li], '|');
            proof {
                assert(ls.skip(3)[li - 3] == ls[li as int]);
                assert(infos@.map_values(|t: Vec<char>| t@) == split_char(
                    ls.skip(3)[li - 3],
                    '|',
                ));
            }
            if !tree.apply_entries(node_id, &infos, count) {
                return None;
            }
            node_id = node_id + 1;
            li = li + 1;
        }
        proof {
            assert(nodes_apply(t0, ls.skip(3), 0, 0, count as int) == Some(tree@));
        }
        let mut i: usize = 1;
        while i < count
            invariant
                1 <= i <= count,
                count == tree@.nodes.len(),
                forall|j: int| 1 <= j < i ==> (#[trigger] tree@.nodes[j].parent) is Some,
            decreases count - i,
        {
            if parent_missing(&tree, i) {
                proof {
                    assert(!all_parented(tree@));
                }
                return None;
            }
            i = i + 1;
        }
        proof {
            assert(all_parented(tree@));
            lemma_building_wf(tree@, count as int);
        }
        Some(tree)
    }
}

impl GameTree {
    /// Walks the tree depth-first from `current`, skipping the subtree
    /// rooted at the node to delete, listing every surviving node and
    /// recording its new index.
    #[verifier::loop_isolation(false)]
    fn collect_remaining_nodes(
        &self,
        current: usize,
        node_to_delete: usize,
        remaining: &mut Vec<usize>,
        node_mapping: &mut Vec<Option<usize>>,
    )
        requires
            self@.wf(),
            (current as int) < self@.nodes.len(),
            map_bij(self@, old(remaining)@, old(node_mapping)@),
        ensures
            final(remaining)@ == old(remaining)@ + collect_node(
                self@,
                current as int,
                node_to_delete as int,
                old(remaining)@,
            ),
            map_bij(self@, final(remaining)@, final(node_mapping)@),
        decreases self@.nodes.len() - current,
    {
        let ghost t = self@;
        let ghost seen0 = remaining@;
        if current == node_to_delete {
            proof {
                assert(remaining@ =~= seen0 + collect_node(
                    t,
                    current as int,
                    node_to_delete as int,
                    seen0,
                ));
            }
            return ;
        }
        if node_mapping[current].is_some() {
            proof {
                let q = node_mapping@[current as int]->0;
                assert(remaining@[q as int] == current);
                assert(remaining@.contains(current));
                assert(remaining@ =~= seen0 + collect_node(
                    t,
                    current as int,
                    node_to_delete as int,
                    seen0,
                ));
            }
            return ;
        }
        proof {
            if seen0.contains(current) {
                let q = choose|q: int| 0 <= q < seen0.len() && seen0[q] == current;
                assert(node_mapping@[seen0[q] as int] == Some(q as usize));
                assert(false);
            }
        }
        let new_index = remaining.len();
        remaining.push(current);
        node_mapping[current] = Some(new_index);
        proof {
            assert forall|q: int|
                0 <= q < remaining@.len() implies ((#[trigger] remaining@[q]) as int)
                < t.nodes.len() && node_mapping@[remaining@[q] as int] == Some(q as usize) by {
                if q < seen0.len() {
                    assert(seen0[q] == remaining@[q]);
                    assert(seen0[q] != current);
                }
            }
            assert(map_bij(t, remaining@, node_mapping@));
            assert(t.node_wf(current as int));
        }
        let n = self.nodes[current].sons.len();
        let mut k: usize = 0;
        while k < n
            invariant
                k <= n,
                n == t.nodes[current as int].sons.len(),
                map_bij(t, remaining@, node_mapping@),
                remaining@ + collect_sons(
                    t,
                    current as int,
                    k as int,
                    node_to_delete as int,
                    remaining@,
                ) == seen0 + collect_node(t, current as int, node_to_delete as int, seen0),
            decreases n - k,
        {
            let ghost before = remaining@;
            let son = self.nodes[current].sons[k].1;
            proof {
                assert(t.node_wf(current as int));
                assert((current as int) < son < t.nodes.len());
            }
            self.collect_remaining_nodes(son, node_to_delete, remaining, node_mapping);
            proof {
                let add = collect_node(t, son as int, node_to_delete as int, before);
                assert(remaining@ == before + add);
                assert(collect_sons(t, current as int, k as int, node_to_delete as int, before)
                    == add + collect_sons(
                    t,
                    current as int,
                    k + 1,
                    node_to_delete as int,
                    before + add,
                ));
                assert(remaining@ + collect_sons(
                    t,
                    current as int,
                    k + 1,
                    node_to_delete as int,
                    remaining@,
                ) =~= seen0 + collect_node(t, current as int, node_to_delete as int, seen0));
            }
            k = k + 1;
        }
        proof {
            assert(collect_sons(t, current as int, n as int, node_to_delete as int, remaining@)
                =~= Seq::<usize>::empty());
            assert(remaining@ =~= seen0 + collect_node(
                t,
                current as int,
                node_to_delete as int,
                seen0,
            ));
        }
    }

    /// Deletes the subtree rooted at the given node, renumbering the
    /// surviving nodes in preorder; refused at the root. Returns whether
    /// the focus fell inside the deleted subtree and was reset to the
    /// root, so a caller can refresh its displayed position.
    #[verifier::loop_isolation(false)]
    #[verifier::rlimit(100)]
    pub fn handle_delete_variation(&mut self, node_to_delete: usize) -> (r: bool)
        requires
            old(self)@.wf(),
        ensures
            final(self)@.wf(),
            ({
                let t = old(self)@;
                if node_to_delete == t.root {
                    final(self)@ == t && r == false
                } else {
                    let rebuilt = rebuilt_spec(t, node_to_delete as int);
                    if rebuilt.wf() {
                        final(self)@ == rebuilt && r == focus_reset_spec(t, node_to_delete as int)
                    } else {
                        final(self)@ == t && r == false
                    }
                }
            }),
    {
        let ghost t = self@;
        if node_to_delete == self.root {
            return false;
        }
        let len = self.nodes.len();
        let mut remaining: Vec<usize> = Vec::new();
        let mut node_mapping: Vec<Option<usize>> = Vec::new();
        let mut i: usize = 0;
        while i < len
            invariant
                i <= len,
                node_mapping@.len() == i,
                forall|j: int| 0 <= j < i ==> (#[trigger] node_mapping@[j]) is None,
            decreases len - i,
        {
            node_mapping.push(None);
            i = i + 1;
        }
        proof {
            assert(map_bij(t, remaining@, node_mapping@));
        }
        self.collect_remaining_nodes(self.root, node_to_delete, &mut remaining, &mut node_mapping);
        let ghost order = collect_node(t, 0, node_to_delete as int, Seq::empty());
        let rem_len = remaining.len();
        proof {
            assert(rem_len == remaining@.len());
            assert(Seq::<usize>::empty() + order =~= order);
            assert(remaining@ == order);
            assert forall|j: usize| (j as int) < t.nodes.len() implies node_mapping@[j as int]
                == pos_in(order, j, 0) by {
                lemma_bij_pos(t, order, node_mapping@, j);
            }
        }
        let order_len = remaining.len();
        let mut new_nodes: Vec<GameTreeNode> = Vec::new();
        let ghost target = rebuilt_spec(t, node_to_delete as int);
        let mut q: usize = 0;
        while q < order_len
            invariant
                q <= order_len,
                order_len == order.len(),
                map_bij(t, order, node_mapping@),
                node_mapping@.len() == t.nodes.len(),
                self@ == t,
                new_nodes@.len() == q,
                forall|m: int|
                    0 <= m < q ==> (#[trigger] new_nodes@[m])@ == (NodeView {
                        board: t.nodes[order[m] as int].board,
                        parent: remap_parent(t.nodes[order[m] as int], order),
                        sons: Seq::empty(),
                    }),
            decreases order_len - q,
        {
            let old_index = remaining[q];
            proof {
                assert(order[q as int] == old_index);
                assert((old_index as int) < t.nodes.len());
            }
            let mut node = self.nodes[old_index].clone();
            node.sons = Vec::new();
            node.parent = match node.parent {
                None => None,
                Some(p) => {
                    proof {
                        if old_index as int >= 1 {
                            assert((t.nodes[old_index as int].parent matches Some(pp) && (
                            pp as int) < old_index as int));
                        }
                    }
                    node_mapping[p]
                },
            };
            proof {
                assert(node@.sons =~= Seq::<(Step, usize, MoveDataView)>::empty());
                assert(node@.parent == remap_parent(t.nodes[old_index as int], order));
            }
            new_nodes.push(node);
            q = q + 1;
        }
        let mut tree2 = GameTree { nodes: new_nodes, root: 0, focus: 0 };
        let mut q: usize = 0;
        while q < order_len
            invariant
                q <= order_len,
                order_len == order.len(),
                map_bij(t, order, node_mapping@),
                node_mapping@.len() == t.nodes.len(),
                self@ == t,
                tree2.root == 0,
                tree2.focus == 0,
                tree2@.nodes.len() == order.len(),
                forall|m: int|
                    0 <= m < order.len() ==> (#[trigger] tree2@.nodes[m]).board == t.nodes[order[m] as int].board
                        && tree2@.nodes[m].parent == remap_parent(t.nodes[order[m] as int], order),
                forall|m: int|
                    0 <= m < q ==> (#[trigger] tree2@.nodes[m]).sons == remap_sons(
                        t.nodes[order[m] as int].sons,
                        order,
                        0,
                    ),
                forall|m: int|
                    q <= m < order.len() ==> (#[trigger] tree2@.nodes[m]).sons == Seq::<
                        (Step, usize, MoveDataView),
                    >::empty(),
            decreases order_len - q,
        {
            let old_index = remaining[q];
            proof {
                assert(order[q as int] == old_index);
                assert((old_index as int) < t.nodes.len());
                assert(t.node_wf(old_index as int));
            }
            let ns = self.nodes[old_index].sons.len();
            let mut k: usize = 0;
            while k < ns
                invariant
                    k <= ns,
                    q < order_len == order.len(),
                    ns == t.nodes[order[q as int] as int].sons.len(),
                    old_index == order[q as int],
                    map_bij(t, order, node_mapping@),
                    node_mapping@.len() == t.nodes.len(),
                    self@ == t,
                    t.node_wf(old_index as int),
                    tree2.root == 0,
                    tree2.focus == 0,
                    tree2@.nodes.len() == order.len(),
                    forall|m: int|
                        0 <= m < order.len() ==> (#[trigger] tree2@.nodes[m]).board == t.nodes[order[m] as int].board
                            && tree2@.nodes[m].parent == remap_parent(
                            t.nodes[order[m] as int],
                            order,
                        ),
                    forall|m: int|
                        0 <= m < q ==> (#[trigger] tree2@.nodes[m]).sons == remap_sons(
                            t.nodes[order[m] as int].sons,
                            order,
                            0,
                        ),
                    forall|m: int|
                        q < m < order.len() ==> (#[trigger] tree2@.nodes[m]).sons == Seq::<
                            (Step, usize, MoveDataView),
                        >::empty(),
                    tree2@.nodes[q as int].sons + remap_sons(
                        t.nodes[old_index as int].sons,
                        order,
                        k as int,
                    ) == remap_sons(t.nodes[old_index as int].sons, order, 0),
                decreases ns - k,
            {
                let son_old = self.nodes[old_index].sons[k].1;
                let ghost tree2_before = tree2@;
                match node_mapping[son_old] {
                    Some(son_new) => {
                        let stp = self.nodes[old_index].sons[k].0;
                        let md = self.nodes[old_index].sons[k].2.clone();
                        proof {
                            assert((son_new as int) < order.len());
                        }
                        let entry = (stp, son_new, md);
                        tree2.nodes[q].sons.push(entry);
                        proof {
                            let e = t.nodes[old_index as int].sons[k as int];
                            assert(pos_in(order, e.1, 0) == Some(son_new));
                            assert(tree2@.nodes[q as int].sons =~= tree2_before.nodes[q as int].sons
                                + seq![(e.0, son_new, e.2)]);
                            assert forall|m: int|
                                0 <= m < order.len() && m != q implies (
                            #[trigger] tree2@.nodes[m]) == tree2_before.nodes[m] by {}
                            assert(tree2@.nodes[q as int].sons + remap_sons(
                                t.nodes[old_index as int].sons,
                                order,
                                k + 1,
                            ) =~= remap_sons(t.nodes[old_index as int].sons, order, 0));
                        }
                    },
                    None => {
                        proof {
                            let e = t.nodes[old_index as int].sons[k as int];
                            assert(pos_in(order, e.1, 0) is None);
                        }
                    },
                }
                k = k + 1;
            }
            proof {
                assert(remap_sons(t.nodes[old_index as int].sons, order, ns as int) =~= Seq::<
                    (Step, usize, MoveDataView),
                >::empty());
                assert(tree2@.nodes[q as int].sons =~= remap_sons(
                    t.nodes[old_index as int].sons,
                    order,
                    0,
                ));
            }
            q = q + 1;
        }
        let focus_reset: bool;
        match node_mapping[self.focus] {
            Some(nf) => {
                tree2.focus = nf;
                focus_reset = false;
            },
            None => {
                tree2.focus = 0;
                focus_reset = true;
            },
        }
        proof {
            assert(tree2@.nodes =~~= target.nodes);
            assert(tree2@ =~~= target);
        }
        if wf_check(&tree2) {
            *self = tree2;
            focus_reset
        } else {
            false
        }
    }
}

/// Checks that a position's grid is the full board with an in-range
/// en-passant target.
#[verifier::loop_isolation(false)]
fn board_grid_check(b: &Board) -> (r: bool)
    ensures
        r == b@.grid_wf(),
{
    proof {
        assert(b@.grid.len() == b.pieces.0@.len());
    }
    if b.pieces.0.len() != 8 {
        return false;
    }
    let mut x: usize = 0;
    while x < 8
        invariant
            x <= 8,
            b.pieces.0@.len() == 8,
            forall|m: int| 0 <= m < x ==> (#[trigger] b@.grid[m]).len() == 8,
        decreases 8 - x,
    {
        proof {
            assert(b@.grid[x as int] == b.pieces.0@[x as int]@);
        }
        if b.pieces.0[x].len() != 8 {
            return false;
        }
        x = x + 1;
    }
    match b.en_passant_target {
        Some(tgt) => tgt.0 < 8 && tgt.1 < 8,
        None => true,
    }
}

/// Checks the whole structural invariant of a tree at run time.
#[verifier::loop_isolation(false)]
#[verifier::rlimit(60)]
fn wf_check(tree: &GameTree) -> (r: bool)
    ensures
        r == tree@.wf(),
{
    let ghost t = tree@;
    let len = tree.nodes.len();
    if len == 0 {
        return false;
    }
    if tree.root != 0 {
        return false;
    }
    if tree.focus >= len {
        return false;
    }
    if tree.nodes[0].parent.is_some() {
        return false;
    }
    let mut i: usize = 0;
    while i < len
        invariant
            i <= len,
            forall|j: int|
                1 <= j < i ==> ((#[trigger] t.nodes[j].parent) matches Some(p) && (p as int) < j),
            forall|j: int|
                1 <= j < i ==> t.has_son_entry((#[trigger] t.nodes[j].parent)->0 as int, j),
            forall|j: int| 0 <= j < i ==> t.node_wf(j),
        decreases len - i,
    {
        if i >= 1 {
            let p = match tree.nodes[i].parent {
                None => {
                    proof {
                        if t.wf() {
                            assert((t.nodes[i as int].parent matches Some(pp) && (pp as int)
                                < i as int));
                        }
                    }
                    return false;
                },
                Some(p) => p,
            };
            if p >= i {
                proof {
                    if t.wf() {
                        assert((t.nodes[i as int].parent matches Some(pp) && (pp as int)
                            < i as int));
                    }
                }
                return false;
            }
            let m = tree.nodes[p].sons.len();
            let mut k: usize = 0;
            let mut found = false;
            while k < m
                invariant
                    k <= m,
                    (p as int) < i < t.nodes.len(),
                    m == t.nodes[p as int].sons.len(),
                    found ==> t.has_son_entry(p as int, i as int),
                    !found ==> forall|k2: int|
                        0 <= k2 < k ==> (#[trigger] t.nodes[p as int].sons[k2]).1 != i,
                decreases m - k,
            {
                if tree.nodes[p].sons[k].1 == i {
                    found = true;
                    proof {
                        assert(t.nodes[p as int].sons[k as int].1 == i);
                        assert(t.has_son_entry(p as int, i as int));
                    }
                }
                k = k + 1;
            }
            if !found {
                proof {
                    if t.wf() {
                        assert((t.nodes[i as int].parent matches Some(pp) && (pp as int)
                            < i as int));
                        assert(t.has_son_entry(t.nodes[i as int].parent->0 as int, i as int));
                        let k0 = choose|k0: int|
                            0 <= k0 < t.nodes[p as int].sons.len() && (#[trigger] t.nodes[
                            p as int].sons[k0]).1 == i as int;
                        assert(false);
                    }
                }
                return false;
            }
        }
        let m = tree.nodes[i].sons.len();
        let mut k: usize = 0;
        while k < m
            invariant
                k <= m,
                i < t.nodes.len(),
                m == t.nodes[i as int].sons.len(),
                forall|k2: int|
                    0 <= k2 < k ==> i < (#[trigger] t.nodes[i as int].sons[k2]).1 < t.nodes.len(),
                forall|k2: int|
                    0 <= k2 < k ==> t.nodes[(#[trigger] t.nodes[i as int].sons[k2]).1 as int].parent
                        == Some(i),
                forall|k1: int, k2: int|
                    0 <= k1 < k2 < k ==> (#[trigger] t.nodes[i as int].sons[k1]).1 != (
                    #[trigger] t.nodes[i as int].sons[k2]).1,
            decreases m - k,
        {
            let son = tree.nodes[i].sons[k].1;
            proof {
                assert(son == t.nodes[i as int].sons[k as int].1);
            }
            if !(son > i && son < len) {
                proof {
                    if t.wf() {
                        assert(t.node_wf(i as int));
                        assert(i < (t.nodes[i as int].sons[k as int]).1 < t.nodes.len());
                    }
                }
                return false;
            }
            match tree.nodes[son].parent {
                Some(pp) => if pp != i {
                    proof {
                        if t.wf() {
                            assert(t.node_wf(i as int));
                            assert(t.nodes[(t.nodes[i as int].sons[k as int]).1 as int].parent
                                == Some(i));
                        }
                    }
                    return false;
                },
                None => {
                    proof {
                        if t.wf() {
                            assert(t.node_wf(i as int));
                            assert(t.nodes[(t.nodes[i as int].sons[k as int]).1 as int].parent
                                == Some(i));
                        }
                    }
                    return false;
                },
            }
            let mut k2: usize = 0;
            while k2 < k
                invariant
                    k2 <= k < m,
                    i < t.nodes.len(),
                    m == t.nodes[i as int].sons.len(),
                    son == t.nodes[i as int].sons[k as int].1,
                    forall|k3: int| 0 <= k3 < k2 ==> (#[trigger] t.nodes[i as int].sons[k3]).1 != son,
                decreases k - k2,
            {
                if tree.nodes[i].sons[k2].1 == son {
                    proof {
                        assert(t.nodes[i as int].sons[k2 as int].1 == son);
                        if t.wf() {
                            assert(t.node_wf(i as int));
                            assert((t.nodes[i as int].sons[k2 as int]).1 != (t.nodes[i as int].sons[
                            k as int]).1);
                        }
                    }
                    return false;
                }
                k2 = k2 + 1;
            }
            k = k + 1;
        }
        if !board_grid_check(&tree.nodes[i].board) {
            proof {
                if t.wf() {
                    assert(t.node_wf(i as int));
                }
            }
            return false;
        }
        proof {
            assert(t.node_wf(i as int));
        }
        i = i + 1;
    }
    proof {
        assert(t.wf());
    }
    true
}

/// Whether the node at `i` is still unconnected.
fn parent_missing(tree: &GameTree, i: usize) -> (r: bool)
    requires
        (i as int) < tree@.nodes.len(),
    ensures
        r == (tree@.nodes[i as int].parent is None),
{
    tree.nodes[i].parent.is_none()
}

/// The effect of one persisted child entry on the tree being rebuilt:
/// an entry that is not parenthesized or has no separator is skipped; a
/// bad index, an already-parented child, or SAN that fails to decode or
/// apply fails the whole parse.
pub open spec fn entry_apply(t: TreeView, node_id: int, info: Seq<char>, count: int) -> Option<
    TreeView,
> {
    if !(info.len() >= 2 && info[0] == '(' && info.last() == ')') {
        Some(t)
    } else {
        let inner = info.subrange(1, info.len() - 1);
        match comma_split_spec(inner) {
            None => Some(t),
            Some((left, right)) => match parse_usize_opt_spec(left) {
                None => None,
                Some(son_id) => {
                    if !(node_id < son_id < count) {
                        None
                    } else if !(t.nodes[son_id as int].parent is None) {
                        None
                    } else {
                        let b = t.nodes[node_id].board;
                        if !b.san_room() {
                            None
                        } else {
                            match read_step_spec(b, right) {
                                None => None,
                                Some(stp) => match try_move_spec(b, stp) {
                                    None => None,
                                    Some(nb) => {
                                        let md = MoveDataView {
                                            ply: b.fullmove,
                                            san: san_of(b, stp)->0,
                                            color: b.active,
                                        };
                                        let child = NodeView {
                                            board: nb,
                                            parent: Some(node_id as usize),
                                            ..t.nodes[son_id as int]
                                        };
                                        let node2 = NodeView {
                                            sons: t.nodes[node_id].sons.push(
                                                (stp, son_id as usize, md),
                                            ),
                                            ..t.nodes[node_id]
                                        };
                                        Some(
                                            TreeView {
                                                nodes: t.nodes.update(son_id as int, child).update(
                                                    node_id,
                                                    node2,
                                                ),
                                                ..t
                                            },
                                        )
                                    },
                                },
                            }
                        }
                    }
                },
            },
        }
    }
}

/// The effect of a node's remaining child entries, from position `k`.
pub open spec fn entries_apply(
    t: TreeView,
    node_id: int,
    infos: Seq<Seq<char>>,
    k: int,
    count: int,
) -> Option<TreeView>
    decreases infos.len() - k,
{
    if k < 0 || k >= infos.len() {
        Some(t)
    } else {
        match entry_apply(t, node_id, infos[k], count) {
            None => None,
            Some(t2) => entries_apply(t2, node_id, infos, k + 1, count),
        }
    }
}

/// The effect of the remaining node lines, one line per node index.
pub open spec fn nodes_apply(
    t: TreeView,
    ls: Seq<Seq<char>>,
    li: int,
    node_id: int,
    count: int,
) -> Option<TreeView>
    decreases ls.len() - li,
{
    if li < 0 || li >= ls.len() || node_id >= count {
        Some(t)
    } else {
        match entries_apply(t, node_id, split_char(ls[li], '|'), 0, count) {
            None => None,
            Some(t2) => nodes_apply(t2, ls, li + 1, node_id + 1, count),
        }
    }
}

/// Every non-root node has been connected to a parent.
pub open spec fn all_parented(t: TreeView) -> bool {
    forall|i: int| 1 <= i < t.nodes.len() ==> (#[trigger] t.nodes[i].parent) is Some
}

/// The invariant of a tree under reconstruction: like well-formedness,
/// but a node may still be waiting for its parent link.
pub open spec fn building_inv(t: TreeView, count: int) -> bool {
    &&& t.nodes.len() == count
    &&& count >= 1
    &&& t.root == 0
    &&& t.focus == 0
    &&& t.nodes[0].parent is None
    &&& forall|i: int|
        1 <= i < count ==> (((#[trigger] t.nodes[i].parent) matches Some(p) && (p as int) < i)
            || t.nodes[i].parent is None)
    &&& forall|i: int|
        1 <= i < count && (#[trigger] t.nodes[i].parent) is Some ==> t.has_son_entry(
            t.nodes[i].parent->0 as int,
            i,
        )
    &&& forall|i: int| 0 <= i < count ==> t.node_wf(i)
}

/// A fully reconnected tree under the building invariant is well
/// formed.
proof fn lemma_building_wf(t: TreeView, count: int)
    requires
        building_inv(t, count),
        all_parented(t),
    ensures
        t.wf(),
{
}

/// The parse of a persisted tree: the header, the root FEN, the node
/// count, then each declared child entry decoded and applied against
/// its parent's position; any malformed line, bad index, or failing SAN
/// fails the whole parse, as does a node left unconnected.
pub open spec fn from_string_spec(s: Seq<char>) -> Option<TreeView> {
    let ls = lines_spec(trim_spec(s));
    if ls.len() < 4 || ls[0] != "[chess game tree]"@ {
        None
    } else {
        let count = parse_usize_spec(ls[2], 0);
        if count == 0 {
            None
        } else {
            let root_board = parse_fen_spec(ls[1]);
            let t0 = TreeView {
                nodes: Seq::new(
                    count as nat,
                    |i: int| NodeView { board: root_board, sons: Seq::empty(), parent: None },
                ),
                root: 0,
                focus: 0,
            };
            match nodes_apply(t0, ls.skip(3), 0, 0, count as int) {
                None => None,
                Some(t) => if all_parented(t) {
                    Some(t)
                } else {
                    None
                },
            }
        }
    }
}

/// The mapping and collection list stand for each other: each listed
/// node maps to its position, and each mapped node is listed there.
pub open spec fn map_bij(t: TreeView, rem: Seq<usize>, mp: Seq<Option<usize>>) -> bool {
    &&& mp.len() == t.nodes.len()
    &&& forall|q: int|
        0 <= q < rem.len() ==> ((#[trigger] rem[q]) as int) < t.nodes.len() && mp[rem[q] as int]
            == Some(q as usize)
    &&& forall|j: int|
        0 <= j < mp.len() ==> ((#[trigger] mp[j]) matches Some(q) ==> (q as int) < rem.len()
            && rem[q as int] == j)
}

/// The nodes kept by a depth-first walk from `cur` that skips the
/// subtree rooted at `del` and any node already seen, in preorder.
pub open spec fn collect_node(t: TreeView, cur: int, del: int, seen: Seq<usize>) -> Seq<usize>
    decreases t.nodes.len() - cur, t.nodes[cur].sons.len() + 1,
{
    if !(0 <= cur < t.nodes.len()) || cur == del || seen.contains(cur as usize) {
        Seq::empty()
    } else {
        seq![cur as usize] + collect_sons(t, cur, 0, del, seen.push(cur as usize))
    }
}

/// The nodes kept below the children of `cur` from child position `k`
/// on.
pub open spec fn collect_sons(t: TreeView, cur: int, k: int, del: int, seen: Seq<usize>) -> Seq<
    usize,
>
    decreases t.nodes.len() - cur, t.nodes[cur].sons.len() - k,
{
    if !(0 <= cur < t.nodes.len()) || k < 0 || k >= t.nodes[cur].sons.len() {
        Seq::empty()
    } else {
        let son = t.nodes[cur].sons[k].1 as int;
        if !(cur < son < t.nodes.len()) {
            collect_sons(t, cur, k + 1, del, seen)
        } else {
            let add = collect_node(t, son, del, seen);
            add + collect_sons(t, cur, k + 1, del, seen + add)
        }
    }
}

/// The first position of `j` in the collection order, if any.
pub open spec fn pos_in(order: Seq<usize>, j: usize, k: int) -> Option<usize>
    decreases order.len() - k,
{
    if k < 0 || k >= order.len() {
        None
    } else if order[k] == j {
        Some(k as usize)
    } else {
        pos_in(order, j, k + 1)
    }
}

/// A position the scan yields names `j`.
proof fn lemma_pos_in_sound(order: Seq<usize>, j: usize, k: int)
    requires
        order.len() <= usize::MAX,
    ensures
        pos_in(order, j, k) matches Some(q) ==> k <= q < order.len() && order[q as int] == j,
    decreases order.len() - k,
{
    if k < 0 || k >= order.len() {
        assert(pos_in(order, j, k) is None);
    } else if order[k] == j {
        assert(pos_in(order, j, k) == Some(k as usize));
    } else {
        lemma_pos_in_sound(order, j, k + 1);
        assert(pos_in(order, j, k) == pos_in(order, j, k + 1));
    }
}

/// A listed node is found by the scan.
proof fn lemma_pos_in_found(order: Seq<usize>, j: usize, q: int)
    requires
        order.len() <= usize::MAX,
        0 <= q < order.len(),
        order[q] == j,
    ensures
        pos_in(order, j, 0) matches Some(q2) ==> order[q2 as int] == j,
        pos_in(order, j, 0) is Some,
    decreases order.len(),
{
    lemma_pos_in_sound(order, j, 0);
    lemma_pos_in_found_from(order, j, q, 0);
}

/// A listed node at or after the scan position is found.
proof fn lemma_pos_in_found_from(order: Seq<usize>, j: usize, q: int, k: int)
    requires
        order.len() <= usize::MAX,
        0 <= k <= q < order.len(),
        order[q] == j,
    ensures
        pos_in(order, j, k) is Some,
    decreases q - k,
{
    if order[k] != j {
        lemma_pos_in_found_from(order, j, q, k + 1);
    }
}

/// Under the bijection, the stored mapping agrees with the positional
/// scan of the collection order.
proof fn lemma_bij_pos(t: TreeView, order: Seq<usize>, mp: Seq<Option<usize>>, j: usize)
    requires
        order.len() <= usize::MAX,
        map_bij(t, order, mp),
        (j as int) < mp.len(),
    ensures
        mp[j as int] == pos_in(order, j, 0),
{
    lemma_pos_in_sound(order, j, 0);
    match mp[j as int] {
        Some(q) => {
            lemma_pos_in_found(order, j, q as int);
            let q2 = pos_in(order, j, 0)->0;
            assert(order[q2 as int] == j);
            assert(mp[order[q2 as int] as int] == Some(q2));
        },
        None => {
            match pos_in(order, j, 0) {
                Some(q2) => {
                    assert(order[q2 as int] == j);
                    assert(mp[order[q2 as int] as int] == Some(q2));
                    assert(false);
                },
                None => {},
            }
        },
    }
}

/// Membership in the subtree rooted at `d`: the parent chain from `i`
/// reaches `d`.
pub open spec fn in_subtree(t: TreeView, i: int, d: int) -> bool
    decreases i,
{
    if i == d {
        true
    } else if i <= 0 || i >= t.nodes.len() {
        false
    } else {
        match t.nodes[i].parent {
            None => false,
            Some(p) => if (p as int) >= i {
                false
            } else {
                in_subtree(t, p as int, d)
            },
        }
    }
}

/// The collection walk from a node outside the deleted subtree never
/// lists a node of that subtree: deletion removes the whole subtree.
pub proof fn lemma_collect_avoids_subtree(t: TreeView, cur: int, del: int, seen: Seq<usize>)
    requires
        t.wf(),
        0 <= cur < t.nodes.len(),
        !in_subtree(t, cur, del),
    ensures
        forall|j: usize|
            collect_node(t, cur, del, seen).contains(j) ==> !in_subtree(t, j as int, del),
    decreases t.nodes.len() - cur, t.nodes[cur].sons.len() + 1,
{
    if !(cur == del || seen.contains(cur as usize)) {
        lemma_collect_sons_avoids_subtree(t, cur, 0, del, seen.push(cur as usize));
        let sub = collect_sons(t, cur, 0, del, seen.push(cur as usize));
        assert forall|j: usize|
            collect_node(t, cur, del, seen).contains(j) implies !in_subtree(t, j as int, del) by {
            let k = choose|k: int|
                0 <= k < collect_node(t, cur, del, seen).len() && collect_node(t, cur, del, seen)[k]
                    == j;
            if k == 0 {
                assert(j == cur as usize);
            } else {
                assert(collect_node(t, cur, del, seen)[k] == sub[k - 1]);
                assert(sub.contains(j));
            }
        }
    }
}

/// The collection walk over a node's children stays outside the
/// deleted subtree when the node itself is outside it.
proof fn lemma_collect_sons_avoids_subtree(t: TreeView, cur: int, k: int, del: int, seen: Seq<usize>)
    requires
        t.wf(),
        0 <= cur < t.nodes.len(),
        !in_subtree(t, cur, del),
    ensures
        forall|j: usize|
            collect_sons(t, cur, k, del, seen).contains(j) ==> !in_subtree(t, j as int, del),
    decreases t.nodes.len() - cur, t.nodes[cur].sons.len() - k,
{
    if 0 <= k < t.nodes[cur].sons.len() {
        let son = t.nodes[cur].sons[k].1 as int;
        assert(t.node_wf(cur));
        assert(cur < son < t.nodes.len());
        let add = collect_node(t, son, del, seen);
        if son == del {
            assert(add =~= Seq::<usize>::empty());
            lemma_collect_sons_avoids_subtree(t, cur, k + 1, del, seen + add);
            assert forall|j: usize|
                collect_sons(t, cur, k, del, seen).contains(j) implies !in_subtree(
                t,
                j as int,
                del,
            ) by {
                let m = choose|m: int|
                    0 <= m < collect_sons(t, cur, k, del, seen).len() && collect_sons(
                        t,
                        cur,
                        k,
                        del,
                        seen,
                    )[m] == j;
                assert(collect_sons(t, cur, k, del, seen)[m] == collect_sons(
                    t,
                    cur,
                    k + 1,
                    del,
                    seen + add,
                )[m - add.len()]);
                assert(collect_sons(t, cur, k + 1, del, seen + add).contains(j));
            }
        } else {
            assert(t.nodes[son].parent == Some(cur as usize));
            assert(!in_subtree(t, son, del));
            lemma_collect_avoids_subtree(t, son, del, seen);
            lemma_collect_sons_avoids_subtree(t, cur, k + 1, del, seen + add);
            assert forall|j: usize|
                collect_sons(t, cur, k, del, seen).contains(j) implies !in_subtree(
                t,
                j as int,
                del,
            ) by {
                let m = choose|m: int|
                    0 <= m < collect_sons(t, cur, k, del, seen).len() && collect_sons(
                        t,
                        cur,
                        k,
                        del,
                        seen,
                    )[m] == j;
                if m < add.len() {
                    assert(collect_sons(t, cur, k, del, seen)[m] == add[m]);
                    assert(add.contains(j));
                } else {
                    assert(collect_sons(t, cur, k, del, seen)[m] == collect_sons(
                        t,
                        cur,
                        k + 1,
                        del,
                        seen + add,
                    )[m - add.len()]);
                    assert(collect_sons(t, cur, k + 1, del, seen + add).contains(j));
                }
            }
        }
    }
}

/// A scanned position names a listed node.
proof fn lemma_pos_in_contains(order: Seq<usize>, j: usize, k: int)
    requires
        pos_in(order, j, k) is Some,
    ensures
        order.contains(j),
    decreases order.len() - k,
{
    if 0 <= k < order.len() {
        if order[k] != j {
            lemma_pos_in_contains(order, j, k + 1);
        }
    }
}

/// Deleting a non-root variation removes its whole subtree: any node
/// that keeps a position under the new numbering lies outside the
/// deleted subtree. In particular, a focus that survives deletion was
/// outside it.
pub proof fn lemma_delete_removes_subtree(t: TreeView, del: int, j: usize)
    requires
        t.wf(),
        del != 0,
        pos_in(collect_node(t, 0, del, Seq::empty()), j, 0) is Some,
    ensures
        !in_subtree(t, j as int, del),
{
    lemma_pos_in_contains(collect_node(t, 0, del, Seq::empty()), j, 0);
    lemma_collect_avoids_subtree(t, 0, del, Seq::empty());
}

/// A node's parent link renumbered through the collection order.
pub open spec fn remap_parent(n: NodeView, order: Seq<usize>) -> Option<usize> {
    match n.parent {
        None => None,
        Some(p) => pos_in(order, p, 0),
    }
}

/// A node's child entries with deleted children dropped and surviving
/// indices renumbered, from entry `k` on.
pub open spec fn remap_sons(
    sons: Seq<(Step, usize, MoveDataView)>,
    order: Seq<usize>,
    k: int,
) -> Seq<(Step, usize, MoveDataView)>
    decreases sons.len() - k,
{
    if k < 0 || k >= sons.len() {
        Seq::empty()
    } else {
        match pos_in(order, sons[k].1, 0) {
            Some(ni) => seq![(sons[k].0, ni, sons[k].2)] + remap_sons(sons, order, k + 1),
            None => remap_sons(sons, order, k + 1),
        }
    }
}

/// The tree rebuilt after deleting the subtree at `del`: the depth-first
/// walk from the root renumbers the survivors in preorder, every parent
/// and child link is rewritten under the new numbering, and the focus
/// follows its node, or falls back to the root when its node was
/// deleted.
pub open spec fn rebuilt_spec(t: TreeView, del: int) -> TreeView {
    let order = collect_node(t, 0, del, Seq::empty());
    TreeView {
        nodes: Seq::new(
            order.len(),
            |q: int|
                NodeView {
                    board: t.nodes[order[q] as int].board,
                    parent: remap_parent(t.nodes[order[q] as int], order),
                    sons: remap_sons(t.nodes[order[q] as int].sons, order, 0),
                },
        ),
        root: 0,
        focus: match pos_in(collect_node(t, 0, del, Seq::empty()), t.focus, 0) {
            Some(nf) => nf,
            None => 0,
        },
    }
}

/// The focus node fell inside the deleted subtree.
pub open spec fn focus_reset_spec(t: TreeView, del: int) -> bool {
    pos_in(collect_node(t, 0, del, Seq::empty()), t.focus, 0) is None
}

/// A single-node tree holding the standard starting position.
pub open spec fn initial_tree() -> TreeView {
    TreeView {
        nodes: seq![
            NodeView {
                board: parse_fen_spec(crate::fen::INITIAL_FEN@),
                sons: Seq::<(Step, usize, MoveDataView)>::empty(),
                parent: None,
            },
        ],
        root: 0,
        focus: 0,
    }
}

/// Appends one persisted child entry to the line.
fn append_entry(out: &mut String, son: usize, san: &String)
    ensures
        final(out)@ == old(out)@ + seq!['('] + dec_digits(son as int) + seq![',', ' '] + san@ + seq![
            ')',
        ],
{
    push_char(out, '(');
    let num = usize_to_string(son);
    out.append(num.as_str());
    push_char(out, ',');
    push_char(out, ' ');
    out.append(san.as_str());
    push_char(out, ')');
    proof {
        assert(out@ =~= old(out)@ + seq!['('] + dec_digits(son as int) + seq![',', ' '] + san@
            + seq![')']);
    }
}

/// A found child entry makes the scan from the start succeed.
proof fn lemma_son_entry_found(t: TreeView, p: int, i: int, k0: int)
    requires
        0 <= k0 < t.nodes[p].sons.len(),
        t.nodes[p].sons[k0].1 == i,
    ensures
        forall|k: int| 0 <= k <= k0 ==> son_entry_from(t, p, i, k) is Some,
    decreases t.nodes[p].sons.len(),
{
    assert forall|k: int| 0 <= k <= k0 implies son_entry_from(t, p, i, k) is Some by {
        lemma_son_entry_found_from(t, p, i, k0, k);
    }
}

/// A found child entry makes the scan from any earlier position
/// succeed.
proof fn lemma_son_entry_found_from(t: TreeView, p: int, i: int, k0: int, k: int)
    requires
        0 <= k <= k0 < t.nodes[p].sons.len(),
        t.nodes[p].sons[k0].1 == i,
    ensures
        son_entry_from(t, p, i, k) is Some,
    decreases k0 - k,
{
    if k < k0 && t.nodes[p].sons[k].1 != i {
        lemma_son_entry_found_from(t, p, i, k0, k + 1);
    }
}

/// Swapping two child entries of one node keeps the tree well formed.
proof fn lemma_wf_swap_sons(t: TreeView, p: int, pos: int)
    requires
        t.wf(),
        0 <= p < t.nodes.len(),
        0 < pos < t.nodes[p].sons.len(),
    ensures
        ({
            let sons = t.nodes[p].sons;
            let swapped = sons.update(0, sons[pos]).update(pos, sons[0]);
            (TreeView { nodes: t.nodes.update(p, NodeView { sons: swapped, ..t.nodes[p] }), ..t }).wf()
        }),
{
    let sons = t.nodes[p].sons;
    let swapped = sons.update(0, sons[pos]).update(pos, sons[0]);
    let nt = TreeView { nodes: t.nodes.update(p, NodeView { sons: swapped, ..t.nodes[p] }), ..t };
    let perm = |k: int| if k == 0 { pos } else if k == pos { 0int } else { k };
    assert forall|i: int|
        1 <= i < nt.nodes.len() implies ((#[trigger] nt.nodes[i].parent) matches Some(q) && (
    q as int) < i) by {
        assert((t.nodes[i].parent matches Some(q) && (q as int) < i));
    }
    assert forall|i: int|
        1 <= i < nt.nodes.len() implies nt.has_son_entry(
        (#[trigger] nt.nodes[i].parent)->0 as int,
        i,
    ) by {
        assert(t.has_son_entry(t.nodes[i].parent->0 as int, i));
        let q = t.nodes[i].parent->0 as int;
        let k0 = choose|k0: int|
            0 <= k0 < t.nodes[q].sons.len() && (#[trigger] t.nodes[q].sons[k0]).1 == i;
        if q == p {
            assert(nt.nodes[q].sons[perm(k0)].1 == i);
        } else {
            assert(nt.nodes[q].sons[k0].1 == i);
        }
    }
    assert forall|i: int| 0 <= i < nt.nodes.len() implies nt.node_wf(i) by {
        assert(t.node_wf(i));
        if i == p {
            assert forall|k: int|
                0 <= k < nt.nodes[i].sons.len() implies i < (#[trigger] nt.nodes[i].sons[k]).1
                    < nt.nodes.len() && nt.nodes[(nt.nodes[i].sons[k]).1 as int].parent == Some(
                i as usize,
            ) by {
                assert(nt.nodes[i].sons[k] == sons[perm(k)]);
                assert(i < sons[perm(k)].1 < t.nodes.len());
            }
            assert forall|k1: int, k2: int|
                0 <= k1 < k2 < nt.nodes[i].sons.len() implies (#[trigger] nt.nodes[i].sons[k1]).1
                    != (#[trigger] nt.nodes[i].sons[k2]).1 by {
                assert(nt.nodes[i].sons[k1] == sons[perm(k1)]);
                assert(nt.nodes[i].sons[k2] == sons[perm(k2)]);
                assert(perm(k1) != perm(k2));
            }
        }
    }
}

/// The first child entry of node `p` naming node `i`, at or after
/// child position `k`.
pub open spec fn son_entry_from(t: TreeView, p: int, i: int, k: int) -> Option<
    (Step, usize, MoveDataView),
>
    decreases t.nodes[p].sons.len() - k,
{
    if k < 0 || k >= t.nodes[p].sons.len() {
        None
    } else if t.nodes[p].sons[k].1 == i {
        Some(t.nodes[p].sons[k])
    } else {
        son_entry_from(t, p, i, k + 1)
    }
}

/// The text of the recorded edge from `p` to `i`: the ply number and a
/// dot before White's move, the bare SAN for Black's.
pub open spec fn edge_label(t: TreeView, p: int, i: int) -> Seq<char> {
    match son_entry_from(t, p, i, 0) {
        None => Seq::<char>::empty(),
        Some(e) => match e.2.color {
            PieceColor::White => dec_digits(e.2.ply as int) + seq!['.'] + e.2.san,
            PieceColor::Black => e.2.san,
        },
    }
}

/// The move list of the line from the root to node `i`: the labels of
/// its edges joined by single spaces.
pub open spec fn pgn_seq(t: TreeView, i: int) -> Seq<char>
    decreases i,
{
    if i <= 0 || i >= t.nodes.len() {
        Seq::<char>::empty()
    } else {
        match t.nodes[i].parent {
            None => Seq::<char>::empty(),
            Some(p) => if (p as int) >= i {
                Seq::<char>::empty()
            } else if p == 0 {
                edge_label(t, p as int, i)
            } else {
                pgn_seq(t, p as int) + seq![' '] + edge_label(t, p as int, i)
            },
        }
    }
}

/// The last child position of `p` naming node `i`, scanning downward
/// from position `k`; 0 when none does.
pub open spec fn last_son_pos(t: TreeView, p: int, i: int, k: int) -> int
    decreases k + 1,
{
    if k < 0 {
        0
    } else if t.nodes[p].sons[k].1 == i {
        k
    } else {
        last_son_pos(t, p, i, k - 1)
    }
}

/// The tree after promoting node `cur` to be its parent's mainline
/// continuation: its entry swaps with the parent's first entry.
pub open spec fn promote_spec(t: TreeView, cur: int) -> TreeView {
    match t.nodes[cur].parent {
        None => t,
        Some(p) => {
            let sons = t.nodes[p as int].sons;
            let pos = last_son_pos(t, p as int, cur, sons.len() - 1);
            if pos != 0 {
                let swapped = sons.update(0, sons[pos]).update(pos, sons[0]);
                TreeView {
                    nodes: t.nodes.update(
                        p as int,
                        NodeView { sons: swapped, ..t.nodes[p as int] },
                    ),
                    ..t
                }
            } else {
                t
            }
        },
    }
}

/// The tree after promoting every edge of the path from the root to
/// `cur`, making that path the mainline.
pub open spec fn mainline_spec(t: TreeView, cur: int) -> TreeView
    decreases cur,
{
    if cur <= 0 || cur >= t.nodes.len() {
        t
    } else {
        match t.nodes[cur].parent {
            None => t,
            Some(p) => if (p as int) >= cur {
                t
            } else {
                mainline_spec(promote_spec(t, cur), p as int)
            },
        }
    }
}

/// The persisted text of one child entry: the child index and the SAN
/// label.
pub open spec fn entry_text(e: (Step, usize, MoveDataView)) -> Seq<char> {
    seq!['('] + dec_digits(e.1 as int) + seq![',', ' '] + e.2.san + seq![')']
}

/// The rest of a node's child list from position `k` on, each entry
/// preceded by the separator.
pub open spec fn sons_text_rest(node: NodeView, k: int) -> Seq<char>
    decreases node.sons.len() - k,
{
    if k < 0 || k >= node.sons.len() {
        Seq::<char>::empty()
    } else {
        seq!['|'] + entry_text(node.sons[k]) + sons_text_rest(node, k + 1)
    }
}

/// One line of the persisted tree: a node's child entries separated by
/// pipes.
pub open spec fn sons_text(node: NodeView) -> Seq<char> {
    if node.sons.len() == 0 {
        Seq::<char>::empty()
    } else {
        entry_text(node.sons[0]) + sons_text_rest(node, 1)
    }
}

/// The remaining node lines from node `i` on, each preceded by a line
/// break.
pub open spec fn info_rest(t: TreeView, i: int) -> Seq<char>
    decreases t.nodes.len() - i,
{
    if i < 0 || i >= t.nodes.len() {
        Seq::<char>::empty()
    } else {
        seq!['\n'] + sons_text(t.nodes[i]) + info_rest(t, i + 1)
    }
}

/// The persisted text of a tree: the header line, the root FEN, the
/// node count, and one child-list line per node.
pub open spec fn tree_text(t: TreeView) -> Seq<char> {
    "[chess game tree]"@ + seq!['\n'] + fen_of(t.nodes[0].board) + seq!['\n'] + dec_digits(
        t.nodes.len() as int,
    ) + seq!['\n'] + sons_text(t.nodes[0]) + info_rest(t, 1)
}

/// Replaying a token list from tree `t`: each token is decoded against
/// the focus position and attempted; tokens that fail to decode, or
/// positions whose counters leave no room, are skipped.
pub open spec fn replay_spec(t: TreeView, toks: Seq<Seq<char>>, i: int) -> TreeView
    decreases toks.len() - i,
{
    if i < 0 || i >= toks.len() {
        t
    } else {
        let b = t.nodes[t.focus as int].board;
        if !b.san_room() {
            replay_spec(t, toks, i + 1)
        } else {
            match read_step_spec(b, toks[i]) {
                None => replay_spec(t, toks, i + 1),
                Some(stp) => replay_spec(tree_step_spec(t, stp), toks, i + 1),
            }
        }
    }
}

/// The node reached from `i` by following mainline continuations to a
/// leaf.
pub open spec fn mainline_leaf(t: TreeView, i: int) -> usize
    decreases t.nodes.len() - i,
{
    if i < 0 || i >= t.nodes.len() {
        i as usize
    } else if t.nodes[i].sons.len() == 0 {
        i as usize
    } else if !(i < t.nodes[i].sons[0].1 < t.nodes.len()) {
        i as usize
    } else {
        mainline_leaf(t, t.nodes[i].sons[0].1 as int)
    }
}

} // verus!
