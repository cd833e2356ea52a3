//! The branching game record: a tree of property-node runs with variation
//! sub-trees, built from a token sequence, addressed by a flattened move
//! index, mutated by move recording, and serialized back to record text.
use vstd::prelude::*;

use crate::go_move::GoMove;
use crate::sgf::{is_prop_key, key_chars, node_text, pos_of_mark, spec_lex, views_of, NodeV, SgfNode, SgfToken, TokenV};

verus! {

/// One branch segment of the record: its own run of property nodes and the
/// variation sub-trees that continue it. `selected` marks the line currently
/// being followed; `is_root` holds only for the top-level tree, which carries
/// the game-metadata header.
#[derive(Debug)]
pub struct GameTree {
    pub is_root: bool,
    pub selected: bool,
    pub nodes: Vec<SgfNode>,
    pub sub_game_trees: Vec<GameTree>,
}

/// The mathematical image of a game tree.
#[verifier::ext_equal]
pub struct TreeV {
    pub is_root: bool,
    pub selected: bool,
    pub nodes: Seq<NodeV>,
    pub subs: Seq<TreeV>,
}

/// The image of a tree: its nodes' and sub-trees' images, recursively.
pub open spec fn tree_view(t: GameTree) -> TreeV
    decreases t,
    via tree_view_dec
{
    TreeV {
        is_root: t.is_root,
        selected: t.selected,
        nodes: t.nodes@.map_values(|n: SgfNode| n@),
        subs: trees_view(t.sub_game_trees@),
    }
}

/// The images of a run of trees.
pub open spec fn trees_view(ts: Seq<GameTree>) -> Seq<TreeV>
    decreases ts,
    via trees_view_dec
{
    if ts.len() == 0 {
        Seq::empty()
    } else {
        seq![tree_view(ts[0])] + trees_view(ts.drop_first())
    }
}

#[via_fn]
proof fn tree_view_dec(t: GameTree) {
    assert(decreases_to!(t => t.sub_game_trees));
    assert(decreases_to!(t.sub_game_trees => t.sub_game_trees@));
}

#[via_fn]
proof fn trees_view_dec(ts: Seq<GameTree>) {
    if ts.len() > 0 {
        assert(decreases_to!(ts => ts[0]));
        assert(ts.drop_first() == ts.subrange(1, ts.len() as int));
        assert(decreases_to!(ts => ts.subrange(1, ts.len() as int)));
    }
}

/// The tree images, element by element.
pub proof fn lemma_trees_view(ts: Seq<GameTree>)
    ensures
        trees_view(ts).len() == ts.len(),
        forall|k: int| 0 <= k < ts.len() ==> trees_view(ts)[k] == tree_view(ts[k]),
    decreases ts.len(),
{
    if ts.len() > 0 {
        lemma_trees_view(ts.drop_first());
    }
}

impl View for GameTree {
    type V = TreeV;

    open spec fn view(&self) -> TreeV {
        tree_view(*self)
    }
}

/// The views of a node vector.
pub open spec fn views_of_nodes(ns: Seq<SgfNode>) -> Seq<NodeV> {
    ns.map_values(|n: SgfNode| n@)
}


/// A tree with no nodes and no variations.
pub open spec fn empty_tree(selected: bool, is_root: bool) -> TreeV {
    TreeV { is_root, selected, nodes: Seq::empty(), subs: Seq::empty() }
}

/// The position of the matching segment-end token: scanning from `j` with
/// `depth` still-open nested segments, the first segment-end at depth zero,
/// or `end` when the segment never closes.
pub open spec fn find_seg_end(toks: Seq<TokenV>, j: int, end: int, depth: int) -> int
    decreases end - j,
    when 0 <= j <= end <= toks.len()
{
    if j >= end {
        end
    } else if toks[j] is SEGSTART {
        find_seg_end(toks, j + 1, end, depth + 1)
    } else if toks[j] is SEGEND {
        if depth == 0 {
            j
        } else {
            find_seg_end(toks, j + 1, end, depth - 1)
        }
    } else {
        find_seg_end(toks, j + 1, end, depth)
    }
}

pub proof fn lemma_find_seg_end(toks: Seq<TokenV>, j: int, end: int, depth: int)
    requires
        0 <= j <= end <= toks.len(),
    ensures
        j <= find_seg_end(toks, j, end, depth) <= end,
    decreases end - j,
{
    if j >= end {
    } else if toks[j] is SEGSTART {
        lemma_find_seg_end(toks, j + 1, end, depth + 1);
    } else if toks[j] is SEGEND {
        if depth != 0 {
            lemma_find_seg_end(toks, j + 1, end, depth - 1);
        }
    } else {
        lemma_find_seg_end(toks, j + 1, end, depth);
    }
}

/// The node written at `idx`: a recognized key followed by a complete
/// bracketed value, all inside the segment. Anything else is no node.
pub open spec fn parse_node_at(toks: Seq<TokenV>, idx: int, end: int) -> Option<NodeV> {
    if idx + 3 < end && is_prop_key(toks[idx]) && toks[idx + 1] is VALSTART && toks[idx + 3]
        is VALEND {
        match toks[idx + 2] {
            TokenV::VAL(v) => Some(NodeV { key: toks[idx], val: v }),
            _ => None,
        }
    } else {
        None
    }
}

/// The nodes and sub-trees collected from token position `i` to the segment
/// end. `have_subs` records whether a variation was already opened: the first
/// one parsed is the selected line. A nested segment-start is matched to its
/// segment-end and parsed recursively (or skipped as a single token when it
/// never closes); a recognized key with a complete bracketed value, with or
/// without a leading node split, becomes one node; every other token is
/// passed over.
pub open spec fn parse_items(toks: Seq<TokenV>, i: int, end: int, have_subs: bool) -> (Seq<
    NodeV,
>, Seq<TreeV>)
    decreases end - i,
    when 0 <= i <= end <= toks.len()
    via parse_items_dec
{
    if i >= end {
        (Seq::empty(), Seq::empty())
    } else if toks[i] is SEGSTART {
        let j = find_seg_end(toks, i + 1, end, 0);
        if j < end {
            let sub = parse_tree(toks, i, j, !have_subs, false);
            let (ns, ss) = parse_items(toks, j + 1, end, true);
            (ns, seq![sub] + ss)
        } else {
            parse_items(toks, i + 1, end, have_subs)
        }
    } else if toks[i] is SPLIT && i + 1 < end && is_prop_key(toks[i + 1]) {
        let ni = if end - i >= 5 { i + 5 } else { end };
        let (ns, ss) = parse_items(toks, ni, end, have_subs);
        match parse_node_at(toks, i + 1, end) {
            Some(n) => (seq![n] + ns, ss),
            None => (ns, ss),
        }
    } else if is_prop_key(toks[i]) {
        let ni = if end - i >= 4 { i + 4 } else { end };
        let (ns, ss) = parse_items(toks, ni, end, have_subs);
        match parse_node_at(toks, i, end) {
            Some(n) => (seq![n] + ns, ss),
            None => (ns, ss),
        }
    } else {
        parse_items(toks, i + 1, end, have_subs)
    }
}

/// The tree one parenthesized segment `[start, end)` builds: its items
/// collected from just inside the opening token.
pub open spec fn parse_tree(
    toks: Seq<TokenV>,
    start: int,
    end: int,
    selected: bool,
    is_root: bool,
) -> TreeV
    decreases end - start,
    when 0 <= start < end <= toks.len()
{
    let (ns, ss) = parse_items(toks, start + 1, end, false);
    TreeV { is_root, selected, nodes: ns, subs: ss }
}

#[via_fn]
proof fn parse_items_dec(toks: Seq<TokenV>, i: int, end: int, have_subs: bool) {
    if 0 <= i < end <= toks.len() {
        lemma_find_seg_end(toks, i + 1, end, 0);
    }
}

impl GameTree {
    /// Builds the tree one parenthesized token range describes, best effort:
    /// a range reaching past the token sequence is the one rejected input.
    pub fn from_sgf_tokens(
        sgf_tokens: &Vec<SgfToken>,
        start: usize,
        end: usize,
        selected: bool,
        is_root: bool,
    ) -> (r: Option<GameTree>)
        ensures
            end <= sgf_tokens@.len() && start < end ==> (r matches Some(t) && t@ == parse_tree(
                views_of(sgf_tokens@),
                start as int,
                end as int,
                selected,
                is_root,
            )),
            end <= sgf_tokens@.len() && start >= end ==> (r matches Some(t) && t@ == empty_tree(
                selected,
                is_root,
            )),
            end > sgf_tokens@.len() ==> r is None,
        decreases end - start,
    {
        if end > sgf_tokens.len() {
            return None;
        }
        let ghost toks = views_of(sgf_tokens@);
        let mut game_tree = GameTree {
            is_root,
            selected,
            nodes: Vec::new(),
            sub_game_trees: Vec::new(),
        };
        if start >= end {
            proof {
                assert(game_tree@ =~= empty_tree(selected, is_root));
            }
            return Some(game_tree);
        }
        let mut i: usize = start + 1;
        while i < end
            invariant
                end <= sgf_tokens@.len(),
                toks == views_of(sgf_tokens@),
                start + 1 <= i <= end,
                game_tree.is_root == is_root,
                game_tree.selected == selected,
                parse_items(toks, start as int + 1, end as int, false).0 == views_of_nodes(
                    game_tree.nodes@,
                ) + parse_items(toks, i as int, end as int, game_tree.sub_game_trees@.len() > 0).0,
                parse_items(toks, start as int + 1, end as int, false).1 == trees_view(
                    game_tree.sub_game_trees@,
                ) + parse_items(toks, i as int, end as int, game_tree.sub_game_trees@.len() > 0).1,
            decreases end - i,
        {
            let ghost i0 = i as int;
            let ghost nodes0 = game_tree.nodes@;
            let ghost subs0 = game_tree.sub_game_trees@;
            let ghost hs0 = subs0.len() > 0;
            if matches!(sgf_tokens[i], SgfToken::SEGSTART) {
                let mut j = i + 1;
                let mut depth: usize = 0;
                let mut found: Option<usize> = None;
                while j < end
                    invariant_except_break
                        i as int + 1 <= j <= end,
                        end <= sgf_tokens@.len(),
                        toks == views_of(sgf_tokens@),
                        depth as int <= j - (i as int) - 1,
                        found is None,
                        find_seg_end(toks, i0 + 1, end as int, 0) == find_seg_end(
                            toks,
                            j as int,
                            end as int,
                            depth as int,
                        ),
                    ensures
                        match found {
                            Some(f) => f as int == find_seg_end(toks, i0 + 1, end as int, 0) && f
                                < end && i < f,
                            None => find_seg_end(toks, i0 + 1, end as int, 0) == end,
                        },
                    decreases end - j,
                {
                    if matches!(sgf_tokens[j], SgfToken::SEGSTART) {
                        depth = depth + 1;
                    } else if matches!(sgf_tokens[j], SgfToken::SEGEND) {
                        if depth == 0 {
                            found = Some(j);
                            break ;
                        }
                        depth = depth - 1;
                    }
                    j = j + 1;
                }
                match found {
                    Some(jj) => {
                        let sub_selected = game_tree.sub_game_trees.len() == 0;
                        let sub = Self::from_sgf_tokens(sgf_tokens, i, jj, sub_selected, false);
                        match sub {
                            Some(sub_game_tree) => {
                                game_tree.sub_game_trees.push(sub_game_tree);
                            },
                            None => {
                                // the recursive range lies inside the sequence, so a
                                // sub-tree always comes back
                                assert(false);
                            },
                        }
                        i = jj + 1;
                        proof {
                            lemma_trees_view(game_tree.sub_game_trees@);
                            lemma_trees_view(subs0);
                            assert(trees_view(game_tree.sub_game_trees@) =~= trees_view(
                                subs0,
                            ).push(parse_tree(toks, i0, jj as int, !hs0, false)));
                            lemma_unfold_seg(toks, i0, end as int, hs0, jj as int, nodes0, subs0);
                        }
                    },
                    None => {
                        i = i + 1;
                        proof {
                            assert(parse_items(toks, i0, end as int, hs0) == parse_items(
                                toks,
                                i0 + 1,
                                end as int,
                                hs0,
                            ));
                        }
                    },
                }
            } else {
                let is_split = matches!(sgf_tokens[i], SgfToken::SPLIT);
                if is_split && i + 1 < end && sgf_tokens[i + 1].is_prop_sgf_key() {
                    let sgf_node = Self::parse_sgf_node(sgf_tokens, i + 1, end);
                    if let Some(sgf_node) = sgf_node {
                        game_tree.nodes.push(sgf_node);
                    }
                    if end - i >= 5 {
                        i = i + 5;
                    } else {
                        i = end;
                    }
                    proof {
                        lemma_step_node(toks, i0, end as int, hs0, i0 + 1, i as int, nodes0, subs0);
                    }
                } else if sgf_tokens[i].is_prop_sgf_key() {
                    let sgf_node = Self::parse_sgf_node(sgf_tokens, i, end);
                    if let Some(sgf_node) = sgf_node {
                        game_tree.nodes.push(sgf_node);
                    }
                    if end - i >= 4 {
                        i = i + 4;
                    } else {
                        i = end;
                    }
                    proof {
                        lemma_step_node(toks, i0, end as int, hs0, i0, i as int, nodes0, subs0);
                    }
                } else {
                    i = i + 1;
                    proof {
                        assert(parse_items(toks, i0, end as int, hs0) == parse_items(
                            toks,
                            i0 + 1,
                            end as int,
                            hs0,
                        ));
                    }
                }
            }
        }
        proof {
            assert(parse_items(toks, i as int, end as int, game_tree.sub_game_trees@.len() > 0)
                == (Seq::<NodeV>::empty(), Seq::<TreeV>::empty()));
            assert(views_of_nodes(game_tree.nodes@) + Seq::<NodeV>::empty() =~= views_of_nodes(
                game_tree.nodes@,
            ));
            assert(trees_view(game_tree.sub_game_trees@) + Seq::<TreeV>::empty()
                =~= trees_view(game_tree.sub_game_trees@));
            assert(game_tree@ =~= parse_tree(toks, start as int, end as int, selected, is_root));
        }
        Some(game_tree)
    }

    /// The node written at token position `idx`, if the key-value pattern is
    /// complete inside the segment.
    fn parse_sgf_node(sgf_tokens: &Vec<SgfToken>, idx: usize, end: usize) -> (r: Option<SgfNode>)
        requires
            end <= sgf_tokens@.len(),
        ensures
            match r {
                Some(n) => parse_node_at(views_of(sgf_tokens@), idx as int, end as int) == Some(
                    n@,
                ),
                None => parse_node_at(views_of(sgf_tokens@), idx as int, end as int) is None,
            },
    {
        if !(idx < end && end - idx > 3) {
            return None;
        }
        if !sgf_tokens[idx].is_prop_sgf_key() {
            return None;
        }
        if !matches!(sgf_tokens[idx + 1], SgfToken::VALSTART) {
            return None;
        }
        if !matches!(sgf_tokens[idx + 3], SgfToken::VALEND) {
            return None;
        }
        match &sgf_tokens[idx + 2] {
            SgfToken::VAL(val) => Some(
                SgfNode { node_key: crate::sgf::token_dup(&sgf_tokens[idx]), node_val: val.clone() },
            ),
            _ => None,
        }
    }
}

/// One parser step that consumes a matched nested segment.
proof fn lemma_unfold_seg(
    toks: Seq<TokenV>,
    i: int,
    end: int,
    hs: bool,
    j: int,
    nodes0: Seq<SgfNode>,
    subs0: Seq<GameTree>,
)
    requires
        0 <= i < end <= toks.len(),
        toks[i] is SEGSTART,
        find_seg_end(toks, i + 1, end, 0) == j,
        j < end,
        hs == (subs0.len() > 0),
    ensures
        parse_items(toks, i, end, hs).0 == parse_items(toks, j + 1, end, true).0,
        parse_items(toks, i, end, hs).1 == seq![parse_tree(toks, i, j, !hs, false)] + parse_items(
            toks,
            j + 1,
            end,
            true,
        ).1,
        trees_view(subs0) + parse_items(toks, i, end, hs).1 =~= trees_view(subs0).push(
            parse_tree(toks, i, j, !hs, false),
        ) + parse_items(toks, j + 1, end, true).1,
{
    lemma_find_seg_end(toks, i + 1, end, 0);
}

/// One parser step that consumes a key-value pattern, with or without its
/// leading node split.
proof fn lemma_step_node(
    toks: Seq<TokenV>,
    i: int,
    end: int,
    hs: bool,
    idx: int,
    ni: int,
    nodes0: Seq<SgfNode>,
    subs0: Seq<GameTree>,
)
    requires
        0 <= i < end <= toks.len(),
        !(toks[i] is SEGSTART),
        idx == i || (idx == i + 1 && toks[i] is SPLIT && i + 1 < end && is_prop_key(toks[i + 1])),
        idx == i ==> !(toks[i] is SPLIT && i + 1 < end && is_prop_key(toks[i + 1])) && is_prop_key(
            toks[i],
        ),
        idx == i + 1 ==> ni == (if end - i >= 5 { i + 5 } else { end }),
        idx == i ==> ni == (if end - i >= 4 { i + 4 } else { end }),
    ensures
        parse_items(toks, i, end, hs).1 == parse_items(toks, ni, end, hs).1,
        parse_items(toks, i, end, hs).0 == (match parse_node_at(toks, idx, end) {
            Some(n) => seq![n] + parse_items(toks, ni, end, hs).0,
            None => parse_items(toks, ni, end, hs).0,
        }),
        forall|n: SgfNode| parse_node_at(toks, idx, end) == Some(n@) ==> views_of_nodes(
            nodes0.push(n),
        ) + parse_items(toks, ni, end, hs).0 =~= views_of_nodes(nodes0) + parse_items(
            toks,
            i,
            end,
            hs,
        ).0,
{
    assert forall|n: SgfNode| parse_node_at(toks, idx, end) == Some(n@) implies views_of_nodes(
        nodes0.push(n),
    ) + parse_items(toks, ni, end, hs).0 =~= views_of_nodes(nodes0) + parse_items(
        toks,
        i,
        end,
        hs,
    ).0 by {
        assert(views_of_nodes(nodes0.push(n)) =~= views_of_nodes(nodes0).push(n@));
    }
}


/// The two property keys that record a move.
pub open spec fn is_move_key(k: TokenV) -> bool {
    k == TokenV::B || k == TokenV::W
}

/// The move nodes of a run, in order, every other property skipped.
pub open spec fn moves_of(nodes: Seq<NodeV>) -> Seq<NodeV>
    decreases nodes.len(),
{
    if nodes.len() == 0 {
        Seq::empty()
    } else if is_move_key(nodes[0].key) {
        seq![nodes[0]] + moves_of(nodes.drop_first())
    } else {
        moves_of(nodes.drop_first())
    }
}

/// The position of the `m`-th move node in a run.
pub open spec fn cut_index(nodes: Seq<NodeV>, m: int) -> int
    decreases nodes.len(),
{
    if nodes.len() == 0 {
        0
    } else if is_move_key(nodes[0].key) {
        if m == 0 {
            0
        } else {
            1 + cut_index(nodes.drop_first(), m - 1)
        }
    } else {
        1 + cut_index(nodes.drop_first(), m)
    }
}

/// Stepping one node into a run keeps the rest aligned.
pub proof fn lemma_skip_step(ns: Seq<NodeV>, i: int)
    requires
        0 <= i < ns.len(),
    ensures
        ns.skip(i).drop_first() =~= ns.skip(i + 1),
        ns.skip(i)[0] == ns[i],
        ns.skip(i).len() == ns.len() - i,
{
}

/// The `m`-th move node stands at its cut position.
pub proof fn lemma_cut_index(ns: Seq<NodeV>, m: int)
    requires
        0 <= m < moves_of(ns).len(),
    ensures
        0 <= cut_index(ns, m) < ns.len(),
        ns[cut_index(ns, m)] == moves_of(ns)[m],
        is_move_key(ns[cut_index(ns, m)].key),
        moves_of(ns.take(cut_index(ns, m))).len() == m,
        moves_of(ns.skip(cut_index(ns, m))) == moves_of(ns).skip(m),
    decreases ns.len(),
{
    if ns.len() == 0 {
    } else if is_move_key(ns[0].key) {
        if m == 0 {
            assert(ns.take(0) =~= Seq::<NodeV>::empty());
            assert(ns.skip(0) =~= ns);
            assert(moves_of(ns).skip(0) =~= moves_of(ns));
        } else {
            lemma_cut_index(ns.drop_first(), m - 1);
            let c = cut_index(ns.drop_first(), m - 1);
            assert(ns.take(1 + c).drop_first() =~= ns.drop_first().take(c));
            assert(ns.take(1 + c)[0] == ns[0]);
            assert(ns.skip(1 + c) =~= ns.drop_first().skip(c));
            assert(moves_of(ns).skip(m) =~= moves_of(ns.drop_first()).skip(m - 1));
        }
    } else {
        lemma_cut_index(ns.drop_first(), m);
        let c = cut_index(ns.drop_first(), m);
        assert(ns.take(1 + c).drop_first() =~= ns.drop_first().take(c));
        assert(ns.take(1 + c)[0] == ns[0]);
        assert(ns.skip(1 + c) =~= ns.drop_first().skip(c));
    }
}

/// All sibling selections dropped.
pub open spec fn deselect_all(subs: Seq<TreeV>) -> Seq<TreeV> {
    subs.map_values(|s: TreeV| TreeV { selected: false, ..s })
}

/// Whether a line begins with the given node.
pub open spec fn sub_matches(s: TreeV, n: NodeV) -> bool {
    s.nodes.len() > 0 && s.nodes[0] == n
}

/// The position of the first line that begins with the given node.
pub open spec fn first_match(subs: Seq<TreeV>, n: NodeV) -> int
    decreases subs.len(),
{
    if subs.len() == 0 {
        0
    } else if sub_matches(subs[0], n) {
        0
    } else {
        1 + first_match(subs.drop_first(), n)
    }
}

/// Sibling selections after an end-of-segment recording: the first line
/// that begins with the recorded node — and it alone — becomes the selected
/// one; every other sibling, matching or not, is deselected, so at most one
/// line of the group is ever selected. When no line matches, the recording
/// appends to the segment's own nodes and the continuation runs there, so
/// every sibling is deselected as well.
pub open spec fn reselect(subs: Seq<TreeV>, n: NodeV) -> Seq<TreeV> {
    Seq::new(
        subs.len(),
        |k: int| TreeV {
            selected: sub_matches(subs[k], n) && first_match(subs, n) == k,
            ..subs[k]
        },
    )
}

/// Whether some variation already begins with the given node.
pub open spec fn some_sub_matches(subs: Seq<TreeV>, n: NodeV) -> bool {
    exists|k: int| 0 <= k < subs.len() && sub_matches(#[trigger] subs[k], n)
}

pub proof fn lemma_first_match(subs: Seq<TreeV>, n: NodeV)
    requires
        some_sub_matches(subs, n),
    ensures
        0 <= first_match(subs, n) < subs.len(),
        sub_matches(subs[first_match(subs, n)], n),
        forall|k: int| 0 <= k < first_match(subs, n) ==> !sub_matches(#[trigger] subs[k], n),
    decreases subs.len(),
{
    if subs.len() == 0 {
    } else if sub_matches(subs[0], n) {
    } else {
        assert(some_sub_matches(subs.drop_first(), n)) by {
            let k = choose|k: int| 0 <= k < subs.len() && sub_matches(#[trigger] subs[k], n);
            assert(sub_matches(subs.drop_first()[k - 1], n));
        }
        lemma_first_match(subs.drop_first(), n);
        assert forall|k: int| 0 <= k < first_match(subs, n) implies !sub_matches(
            #[trigger] subs[k],
            n,
        ) by {
            if k > 0 {
                assert(!sub_matches(subs.drop_first()[k - 1], n));
            }
        }
    }
}

/// A matching line whose predecessors all differ is the first match.
pub proof fn lemma_first_match_prefix(subs: Seq<TreeV>, n: NodeV, i: int)
    requires
        0 <= i < subs.len(),
        sub_matches(subs[i], n),
        forall|k: int| 0 <= k < i ==> !sub_matches(#[trigger] subs[k], n),
    ensures
        some_sub_matches(subs, n),
        first_match(subs, n) == i,
    decreases subs.len(),
{
    if i == 0 {
    } else {
        assert forall|k: int| 0 <= k < i - 1 implies !sub_matches(
            #[trigger] subs.drop_first()[k],
            n,
        ) by {
            assert(subs.drop_first()[k] == subs[k + 1]);
        }
        assert(subs.drop_first()[i - 1] == subs[i]);
        lemma_first_match_prefix(subs.drop_first(), n, i - 1);
    }
}

/// Whether some variation is marked as the line being followed.
pub open spec fn has_selected(subs: Seq<TreeV>) -> bool {
    exists|k: int| 0 <= k < subs.len() && subs[k].selected
}

/// The position of the first selected variation.
pub open spec fn first_selected(subs: Seq<TreeV>) -> int
    decreases subs.len(),
{
    if subs.len() == 0 {
        0
    } else if subs[0].selected {
        0
    } else {
        1 + first_selected(subs.drop_first())
    }
}

pub proof fn lemma_first_selected(subs: Seq<TreeV>)
    requires
        has_selected(subs),
    ensures
        0 <= first_selected(subs) < subs.len(),
        subs[first_selected(subs)].selected,
        forall|k: int| 0 <= k < first_selected(subs) ==> !subs[k].selected,
    decreases subs.len(),
{
    if subs.len() == 0 {
    } else if subs[0].selected {
    } else {
        assert(has_selected(subs.drop_first())) by {
            let k = choose|k: int|
                0 <= k < subs.len() && subs[k].selected;
            assert(subs.drop_first()[k - 1].selected);
        }
        lemma_first_selected(subs.drop_first());
        assert forall|k: int| 0 <= k < first_selected(subs) implies !subs[k].selected by {
            if k > 0 {
                assert(!subs.drop_first()[k - 1].selected);
            }
        }
    }
}

/// What one recording call does to a tree. Addressing the exact end of the
/// segment's moves either re-selects a variation that already begins with the
/// node or appends it; addressing strictly inside is a no-op when the node is
/// already there, and otherwise splits history at the addressed move into a
/// selected new line holding the node and an unselected line holding the old
/// remainder, with every previously existing sibling deselected; addressing
/// past the segment recurses into the selected variation, and is a no-op
/// where no selected variation continues the line. Only a negative index is
/// rejected: every other call succeeds, mutating in place or leaving the
/// tree as it stands.
pub open spec fn record_spec(t: TreeV, id: int, n: NodeV) -> (TreeV, bool)
    decreases t,
    via record_spec_dec
{
    let mc = moves_of(t.nodes).len() as int;
    if id < 0 {
        (t, false)
    } else if id < mc {
        let cut = cut_index(t.nodes, id);
        if t.nodes[cut] == n {
            (t, true)
        } else {
            (
                TreeV {
                    is_root: t.is_root,
                    selected: t.selected,
                    nodes: t.nodes.take(cut),
                    subs: deselect_all(t.subs) + seq![
                        TreeV {
                            is_root: false,
                            selected: true,
                            nodes: seq![n],
                            subs: Seq::empty(),
                        },
                        TreeV {
                            is_root: false,
                            selected: false,
                            nodes: t.nodes.skip(cut),
                            subs: Seq::empty(),
                        },
                    ],
                },
                true,
            )
        }
    } else if id == mc {
        if some_sub_matches(t.subs, n) {
            (TreeV { subs: reselect(t.subs, n), ..t }, true)
        } else {
            (TreeV { nodes: t.nodes.push(n), subs: reselect(t.subs, n), ..t }, true)
        }
    } else {
        if has_selected(t.subs) {
            let k = first_selected(t.subs);
            let rec = record_spec(t.subs[k], id - mc, n);
            (TreeV { subs: t.subs.update(k, rec.0), ..t }, rec.1)
        } else {
            (t, true)
        }
    }
}

#[via_fn]
proof fn record_spec_dec(t: TreeV, id: int, n: NodeV) {
    let mc = moves_of(t.nodes).len() as int;
    if id > mc && has_selected(t.subs) {
        lemma_first_selected(t.subs);
        assert(decreases_to!(t => t.subs));
        assert(decreases_to!(t.subs => t.subs[first_selected(t.subs)]));
    }
}

impl GameTree {
    /// The number of move nodes in a run.
    fn count_move_nodes(nodes: &Vec<SgfNode>) -> (r: usize)
        ensures
            r == moves_of(views_of_nodes(nodes@)).len(),
    {
        let ghost full = views_of_nodes(nodes@);
        let mut cnt: usize = 0;
        let mut i: usize = 0;
        proof {
            assert(full.skip(0) =~= full);
        }
        while i < nodes.len()
            invariant
                0 <= i <= nodes.len(),
                full == views_of_nodes(nodes@),
                full.len() == nodes@.len(),
                cnt <= i,
                moves_of(full).len() == cnt + moves_of(full.skip(i as int)).len(),
            decreases nodes.len() - i,
        {
            proof {
                lemma_skip_step(full, i as int);
            }
            if matches!(nodes[i].node_key, SgfToken::B) || matches!(
                nodes[i].node_key,
                SgfToken::W,
            ) {
                cnt = cnt + 1;
            }
            i = i + 1;
        }
        proof {
            assert(full.skip(i as int) =~= Seq::<NodeV>::empty());
        }
        cnt
    }

    /// The position of the `m`-th move node in a run.
    fn find_cut_index(nodes: &Vec<SgfNode>, m: usize) -> (r: usize)
        requires
            m < moves_of(views_of_nodes(nodes@)).len(),
        ensures
            r == cut_index(views_of_nodes(nodes@), m as int),
            r < nodes@.len(),
    {
        let ghost full = views_of_nodes(nodes@);
        let mut cnt: usize = 0;
        let mut i: usize = 0;
        proof {
            assert(full.skip(0) =~= full);
        }
        while i < nodes.len()
            invariant_except_break
                0 <= i <= nodes.len(),
                full == views_of_nodes(nodes@),
                full.len() == nodes@.len(),
                cnt <= m,
                moves_of(full).len() == cnt + moves_of(full.skip(i as int)).len(),
                cut_index(full, m as int) == i + cut_index(full.skip(i as int), m - cnt),
                m < moves_of(full).len(),
            ensures
                i < nodes@.len(),
                i == cut_index(full, m as int),
            decreases nodes.len() - i,
        {
            proof {
                lemma_skip_step(full, i as int);
            }
            let is_move = matches!(nodes[i].node_key, SgfToken::B) || matches!(
                nodes[i].node_key,
                SgfToken::W,
            );
            if is_move && cnt == m {
                break ;
            }
            if is_move {
                cnt = cnt + 1;
            }
            i = i + 1;
        }
        i
    }

    /// Drops every sibling selection.
    fn deselect_subs(subs: &mut Vec<GameTree>)
        ensures
            trees_view(final(subs)@) == deselect_all(trees_view(old(subs)@)),
    {
        let ghost target = deselect_all(trees_view(old(subs)@));
        let mut out: Vec<GameTree> = Vec::new();
        proof {
            lemma_trees_view(old(subs)@);
        }
        while subs.len() > 0
            invariant
                target == deselect_all(trees_view(old(subs)@)),
                out@.len() + subs@.len() == old(subs)@.len(),
                subs@ == old(subs)@.skip(out@.len() as int),
                trees_view(out@).len() == out@.len(),
                forall|k: int| 0 <= k < out@.len() ==> trees_view(out@)[k] == target[k],
            decreases subs.len(),
        {
            let ghost done = out@.len() as int;
            let mut s = subs.remove(0);
            s.selected = false;
            proof {
                lemma_trees_view(old(subs)@);
                lemma_trees_view(out@.push(s));
                lemma_trees_view(out@);
                assert(old(subs)@.skip(done).drop_first() =~= old(subs)@.skip(done + 1));
                assert(tree_view(s).nodes == tree_view(old(subs)@[done]).nodes);
                assert(tree_view(s).subs == tree_view(old(subs)@[done]).subs);
            }
            out.push(s);
        }
        proof {
            lemma_trees_view(out@);
            assert(trees_view(out@) =~= target);
        }
        *subs = out;
    }

    /// Re-marks sibling selections against the recorded node: exactly the
    /// lines that begin with it stay selected. Reports whether any did.
    fn reselect_subs(subs: &mut Vec<GameTree>, node: &SgfNode) -> (r: bool)
        ensures
            trees_view(final(subs)@) == reselect(trees_view(old(subs)@), node@),
            r == some_sub_matches(trees_view(old(subs)@), node@),
    {
        let ghost full = trees_view(old(subs)@);
        let ghost target = reselect(full, node@);
        let mut out: Vec<GameTree> = Vec::new();
        let mut skip = false;
        proof {
            lemma_trees_view(old(subs)@);
        }
        while subs.len() > 0
            invariant
                full == trees_view(old(subs)@),
                target == reselect(full, node@),
                out@.len() + subs@.len() == old(subs)@.len(),
                subs@ == old(subs)@.skip(out@.len() as int),
                trees_view(out@).len() == out@.len(),
                forall|k: int| 0 <= k < out@.len() ==> trees_view(out@)[k] == target[k],
                skip ==> exists|k: int|
                    0 <= k < out@.len() && sub_matches(#[trigger] full[k], node@),
                !skip ==> forall|k: int| 0 <= k < out@.len() ==> !sub_matches(
                    #[trigger] full[k],
                    node@,
                ),
            decreases subs.len(),
        {
            let ghost done = out@.len() as int;
            let mut s = subs.remove(0);
            let matches_node = s.nodes.len() > 0 && s.nodes[0] == *node;
            s.selected = matches_node && !skip;
            proof {
                lemma_trees_view(old(subs)@);
                lemma_trees_view(out@.push(s));
                lemma_trees_view(out@);
                assert(old(subs)@.skip(done).drop_first() =~= old(subs)@.skip(done + 1));
                assert(tree_view(s).nodes == tree_view(old(subs)@[done]).nodes);
                assert(tree_view(s).subs == tree_view(old(subs)@[done]).subs);
                assert(matches_node == sub_matches(full[done], node@));
                if matches_node && !skip {
                    lemma_first_match_prefix(full, node@, done);
                } else if matches_node && skip {
                    assert(some_sub_matches(full, node@));
                    lemma_first_match(full, node@);
                    assert(first_match(full, node@) != done) by {
                        let ke = choose|ke: int|
                            0 <= ke < done && sub_matches(#[trigger] full[ke], node@);
                        if first_match(full, node@) == done {
                            assert(!sub_matches(full[ke], node@));
                        }
                    }
                }
                assert(tree_view(s) =~= target[done]);
            }
            if matches_node {
                skip = true;
            }
            out.push(s);
        }
        proof {
            lemma_trees_view(out@);
            assert(trees_view(out@) =~= target);
            if !skip {
                assert(!some_sub_matches(full, node@)) by {
                    if some_sub_matches(full, node@) {
                        let k = choose|k: int|
                            0 <= k < full.len() && sub_matches(#[trigger] full[k], node@);
                        assert(!sub_matches(full[k], node@));
                    }
                }
            }
        }
        *subs = out;
        skip
    }

    /// The position of the first selected variation, if any line is selected.
    fn find_selected(subs: &Vec<GameTree>) -> (r: Option<usize>)
        ensures
            match r {
                Some(k) => has_selected(trees_view(subs@)) && k as int == first_selected(
                    trees_view(subs@),
                ) && k < subs@.len(),
                None => !has_selected(trees_view(subs@)),
            },
    {
        proof {
            lemma_trees_view(subs@);
        }
        let mut i: usize = 0;
        while i < subs.len()
            invariant_except_break
                0 <= i <= subs@.len(),
                forall|k: int| 0 <= k < i ==> !trees_view(subs@)[k].selected,
                trees_view(subs@).len() == subs@.len(),
                forall|k: int| 0 <= k < subs@.len() ==> trees_view(subs@)[k] == tree_view(
                    subs@[k],
                ),
            ensures
                i < subs@.len() ==> (has_selected(trees_view(subs@)) && i as int
                    == first_selected(trees_view(subs@))),
                i >= subs@.len() ==> !has_selected(trees_view(subs@)),
            decreases subs.len() - i,
        {
            if subs[i].selected {
                proof {
                    lemma_first_selected_prefix(trees_view(subs@), i as int);
                }
                break ;
            }
            i = i + 1;
        }
        if i < subs.len() {
            Some(i)
        } else {
            None
        }
    }
}

/// A selected entry whose predecessors are all unselected is the first one.
pub proof fn lemma_first_selected_prefix(subs: Seq<TreeV>, i: int)
    requires
        0 <= i < subs.len(),
        subs[i].selected,
        forall|k: int| 0 <= k < i ==> !subs[k].selected,
    ensures
        has_selected(subs),
        first_selected(subs) == i,
    decreases subs.len(),
{
    if i == 0 {
    } else {
        lemma_first_selected_prefix(subs.drop_first(), i - 1);
    }
}


impl GameTree {
    /// Records a move at the given flattened index, mutating the tree in
    /// place as `record_spec` describes. Only a negative index is rejected,
    /// changing nothing; every other call reports success, also where it
    /// finds the move already recorded or runs past the end of a line with
    /// no selected continuation and leaves the tree as it stands.
    pub fn record_move(game_tree: &mut GameTree, move_id: i32, go_move: GoMove) -> (r: bool)
        ensures
            ({
                let rec = record_spec(
                    old(game_tree)@,
                    move_id as int,
                    crate::sgf::move_node(
                        go_move.move_pos.0 as int,
                        go_move.move_pos.1 as int,
                        go_move.move_pos.2 as int,
                    ),
                );
                final(game_tree)@ == rec.0 && r == rec.1
            }),
        decreases *old(game_tree),
    {
        let ghost t0 = game_tree@;
        let ghost nv = crate::sgf::move_node(
            go_move.move_pos.0 as int,
            go_move.move_pos.1 as int,
            go_move.move_pos.2 as int,
        );
        if move_id < 0 {
            return false;
        }
        let id = move_id as usize;
        let mc = Self::count_move_nodes(&game_tree.nodes);
        if id < mc {
            proof {
                lemma_cut_index(t0.nodes, id as int);
            }
            let cut = Self::find_cut_index(&game_tree.nodes, id);
            let sgf_node = crate::sgf::SgfNode::from_go_move(&go_move);
            if game_tree.nodes[cut] == sgf_node {
                return true;
            }
            let suffix = game_tree.nodes.split_off(cut);
            let mut old_branch: Vec<SgfNode> = Vec::new();
            old_branch.push(sgf_node);
            Self::deselect_subs(&mut game_tree.sub_game_trees);
            let ghost deselected = game_tree.sub_game_trees@;
            let old_sub = GameTree {
                is_root: false,
                selected: true,
                nodes: old_branch,
                sub_game_trees: Vec::new(),
            };
            let new_sub = GameTree {
                is_root: false,
                selected: false,
                nodes: suffix,
                sub_game_trees: Vec::new(),
            };
            proof {
                assert(tree_view(old_sub).nodes =~= seq![nv]);
                assert(tree_view(old_sub).subs =~= Seq::<TreeV>::empty());
                assert(tree_view(new_sub).nodes =~= t0.nodes.skip(cut as int));
                assert(tree_view(new_sub).subs =~= Seq::<TreeV>::empty());
            }
            game_tree.sub_game_trees.push(old_sub);
            game_tree.sub_game_trees.push(new_sub);
            proof {
                lemma_trees_view(game_tree.sub_game_trees@);
                lemma_trees_view(deselected);
                assert(views_of_nodes(game_tree.nodes@) =~= t0.nodes.take(cut as int));
                assert(trees_view(game_tree.sub_game_trees@) =~= record_spec(
                    t0,
                    move_id as int,
                    nv,
                ).0.subs);
                assert(game_tree@ =~= record_spec(t0, move_id as int, nv).0);
            }
            true
        } else if id == mc {
            let sgf_node = crate::sgf::SgfNode::from_go_move(&go_move);
            let skip = Self::reselect_subs(&mut game_tree.sub_game_trees, &sgf_node);
            if !skip {
                game_tree.nodes.push(sgf_node);
                proof {
                    assert(views_of_nodes(game_tree.nodes@) =~= t0.nodes.push(nv));
                }
            }
            proof {
                assert(game_tree@ =~= record_spec(t0, move_id as int, nv).0);
            }
            true
        } else {
            match Self::find_selected(&game_tree.sub_game_trees) {
                Some(k) => {
                    proof {
                        lemma_trees_view(game_tree.sub_game_trees@);
                    }
                    let next_id = move_id - (mc as i32);
                    let r = Self::record_move(
                        &mut game_tree.sub_game_trees[k],
                        next_id,
                        go_move,
                    );
                    proof {
                        lemma_trees_view(game_tree.sub_game_trees@);
                        lemma_first_selected(t0.subs);
                        assert(trees_view(game_tree.sub_game_trees@) =~= t0.subs.update(
                            k as int,
                            record_spec(t0.subs[k as int], move_id - mc, nv).0,
                        ));
                        assert(game_tree@ =~= record_spec(t0, move_id as int, nv).0);
                    }
                    r
                },
                None => true,
            }
        }
    }
}


/// The position and mover one encoded node stands for: its first two value
/// letters as grid offsets and its key as the mover's state.
pub open spec fn decoded_pos(n: NodeV) -> (usize, usize, i8) {
    (
        pos_of_mark(n.val[0]),
        pos_of_mark(n.val[1]),
        if n.key == TokenV::B {
            1 as i8
        } else if n.key == TokenV::W {
            -1 as i8
        } else {
            0 as i8
        },
    )
}

/// The next-move candidates a variation list offers: the decoded first node
/// of every line that has one (lines whose first value is too short to name
/// a position are passed over), each tagged with its selection.
pub open spec fn candidate_moves(subs: Seq<TreeV>) -> Seq<((usize, usize, i8), bool)>
    decreases subs.len(),
{
    if subs.len() == 0 {
        Seq::empty()
    } else {
        let rest = candidate_moves(subs.drop_first());
        if subs[0].nodes.len() > 0 && subs[0].nodes[0].val.len() >= 2 {
            seq![(decoded_pos(subs[0].nodes[0]), subs[0].selected)] + rest
        } else {
            rest
        }
    }
}

/// What move navigation answers for a flattened index: the decoded move at
/// the index when it falls inside the segment's recorded moves, one
/// candidate per variation when it names the position right after them, and
/// the answer of the selected variation when it reaches past the segment.
/// A negative index, an addressed move too short to decode, a
/// just-past-the-end index with no variations, or a past-the-end index with
/// no selected line all answer nothing.
pub open spec fn get_moves_spec(t: TreeV, id: int) -> Option<Seq<((usize, usize, i8), bool)>>
    decreases t,
    via get_moves_spec_dec
{
    let mc = moves_of(t.nodes).len() as int;
    if id < 0 {
        None
    } else if id < mc {
        let n = moves_of(t.nodes)[id];
        if n.val.len() >= 2 {
            Some(seq![(decoded_pos(n), true)])
        } else {
            None
        }
    } else if id == mc {
        if t.subs.len() > 0 {
            Some(candidate_moves(t.subs))
        } else {
            None
        }
    } else {
        if has_selected(t.subs) {
            get_moves_spec(t.subs[first_selected(t.subs)], id - mc)
        } else {
            None
        }
    }
}

/// The flattened index reduced to the segment that answers it: each step
/// into the selected variation subtracts the moves already passed.
pub open spec fn residual_index(t: TreeV, id: int) -> int
    decreases t,
    via residual_index_dec
{
    let mc = moves_of(t.nodes).len() as int;
    if id <= mc {
        id
    } else if has_selected(t.subs) {
        residual_index(t.subs[first_selected(t.subs)], id - mc)
    } else {
        id - mc
    }
}

#[via_fn]
proof fn residual_index_dec(t: TreeV, id: int) {
    let mc = moves_of(t.nodes).len() as int;
    if id > mc && has_selected(t.subs) {
        lemma_first_selected(t.subs);
        assert(decreases_to!(t => t.subs));
        assert(decreases_to!(t.subs => t.subs[first_selected(t.subs)]));
    }
}

#[via_fn]
proof fn get_moves_spec_dec(t: TreeV, id: int) {
    let mc = moves_of(t.nodes).len() as int;
    if id > mc && has_selected(t.subs) {
        lemma_first_selected(t.subs);
        assert(decreases_to!(t => t.subs));
        assert(decreases_to!(t.subs => t.subs[first_selected(t.subs)]));
    }
}

/// The positions and selection tags of answered moves.
pub open spec fn pairs_of(v: Seq<(GoMove, bool)>) -> Seq<((usize, usize, i8), bool)> {
    v.map_values(|p: (GoMove, bool)| (p.0.move_pos, p.1))
}

impl GameTree {
    /// Decodes one node into a move at the given index; nothing when its
    /// value is too short to name a position.
    fn decode_node(node: &SgfNode, id: usize) -> (r: Option<GoMove>)
        ensures
            match r {
                Some(m) => node@.val.len() >= 2 && m.move_pos == decoded_pos(node@)
                    && m.move_id == id && m.eat_stones@ == Seq::<(usize, usize, i8)>::empty(),
                None => node@.val.len() < 2,
            },
    {
        let cs = crate::sgf::chars_of(node.node_val.as_str());
        if cs.len() < 2 {
            return None;
        }
        let x = SgfNode::convert_mark_to_pos(cs[0]);
        let y = SgfNode::convert_mark_to_pos(cs[1]);
        let cur_state: i8 = if matches!(node.node_key, SgfToken::B) {
            1
        } else if matches!(node.node_key, SgfToken::W) {
            -1
        } else {
            0
        };
        Some(GoMove::new(id, x, y, cur_state))
    }

    /// Answers the flattened move index as `get_moves_spec` describes: the
    /// returned moves carry the decoded positions and selection tags, the
    /// queried index and no captures.
    pub fn get_moves(game_tree: &GameTree, move_id: i32) -> (r: Option<Vec<(GoMove, bool)>>)
        ensures
            match get_moves_spec(game_tree@, move_id as int) {
                Some(ms) => r matches Some(v) && pairs_of(v@) == ms && forall|k: int|
                    0 <= k < v@.len() ==> (#[trigger] v@[k]).0.move_id == residual_index(
                        game_tree@,
                        move_id as int,
                    ) && v@[k].0.eat_stones@ == Seq::<(usize, usize, i8)>::empty(),
                None => r is None,
            },
        decreases *game_tree,
    {
        let ghost t0 = game_tree@;
        if move_id < 0 {
            return None;
        }
        let id = move_id as usize;
        proof {
            assert(id as int == move_id as int);
        }
        let mc = Self::count_move_nodes(&game_tree.nodes);
        if id < mc {
            proof {
                lemma_cut_index(t0.nodes, id as int);
            }
            let cut = Self::find_cut_index(&game_tree.nodes, id);
            match Self::decode_node(&game_tree.nodes[cut], id) {
                Some(m) => {
                    let ghost mm = m;
                    let mut v: Vec<(GoMove, bool)> = Vec::new();
                    v.push((m, true));
                    proof {
                        assert(pairs_of(v@) =~= seq![
                            (decoded_pos(moves_of(t0.nodes)[id as int]), true),
                        ]);
                        assert(v@[0] == (mm, true));
                        assert(residual_index(t0, move_id as int) == move_id as int);
                    }
                    Some(v)
                },
                None => None,
            }
        } else if id == mc {
            if game_tree.sub_game_trees.len() == 0 {
                return None;
            }
            let mut go_moves: Vec<(GoMove, bool)> = Vec::new();
            let mut i: usize = 0;
            proof {
                lemma_trees_view(game_tree.sub_game_trees@);
                assert(t0.subs.skip(0) =~= t0.subs);
                assert(pairs_of(go_moves@) + candidate_moves(t0.subs.skip(0)) =~= candidate_moves(
                    t0.subs,
                ));
            }
            while i < game_tree.sub_game_trees.len()
                invariant
                    0 <= i <= game_tree.sub_game_trees@.len(),
                    id as int == move_id as int,
                    residual_index(t0, move_id as int) == move_id as int,
                    t0 == game_tree@,
                    t0.subs.len() == game_tree.sub_game_trees@.len(),
                    forall|k: int| 0 <= k < t0.subs.len() ==> t0.subs[k] == tree_view(
                        game_tree.sub_game_trees@[k],
                    ),
                    candidate_moves(t0.subs) == pairs_of(go_moves@) + candidate_moves(
                        t0.subs.skip(i as int),
                    ),
                    forall|k: int| 0 <= k < go_moves@.len() ==> (#[trigger] go_moves@[k]).0.move_id
                        == move_id as int && go_moves@[k].0.eat_stones@ == Seq::<(
                        usize,
                        usize,
                        i8,
                    )>::empty(),
                decreases game_tree.sub_game_trees@.len() - i,
            {
                let ghost pre = go_moves@;
                let sub = &game_tree.sub_game_trees[i];
                proof {
                    assert(t0.subs.skip(i as int).drop_first() =~= t0.subs.skip(i as int + 1));
                    assert(t0.subs.skip(i as int)[0] == t0.subs[i as int]);
                }
                if sub.nodes.len() > 0 {
                    match Self::decode_node(&sub.nodes[0], id) {
                        Some(m) => {
                            let ghost mm = m;
                            let sel = sub.selected;
                            go_moves.push((m, sel));
                            proof {
                                assert(go_moves@ == pre.push((mm, sel)));
                                assert forall|k: int| 0 <= k < go_moves@.len() implies (
                                #[trigger] go_moves@[k]).0.move_id == residual_index(
                                    t0,
                                    move_id as int,
                                ) && go_moves@[k].0.eat_stones@ == Seq::<(
                                    usize,
                                    usize,
                                    i8,
                                )>::empty() by {
                                    if k < pre.len() {
                                        assert(go_moves@[k] == pre[k]);
                                    } else {
                                        assert(go_moves@[k] == (mm, sel));
                                    }
                                }
                                assert(pairs_of(go_moves@) =~= pairs_of(pre).push(
                                    (decoded_pos(t0.subs[i as int].nodes[0]), t0.subs[i as int].selected),
                                ));
                                assert(pairs_of(pre).push(
                                    (decoded_pos(t0.subs[i as int].nodes[0]), t0.subs[i as int].selected),
                                ) + candidate_moves(t0.subs.skip(i as int + 1)) =~= pairs_of(pre)
                                    + candidate_moves(t0.subs.skip(i as int)));
                            }
                        },
                        None => {
                        },
                    }
                } else {
                }
                i = i + 1;
            }
            proof {
                assert(t0.subs.skip(i as int) =~= Seq::<TreeV>::empty());
                assert(pairs_of(go_moves@) + Seq::<((usize, usize, i8), bool)>::empty()
                    =~= pairs_of(go_moves@));
            }
            Some(go_moves)
        } else {
            match Self::find_selected(&game_tree.sub_game_trees) {
                Some(k) => {
                    proof {
                        lemma_trees_view(game_tree.sub_game_trees@);
                        lemma_first_selected(t0.subs);
                    }
                    let next_id = move_id - (mc as i32);
                    let r = Self::get_moves(&game_tree.sub_game_trees[k], next_id);
                    proof {
                        assert(get_moves_spec(t0, move_id as int) == get_moves_spec(
                            t0.subs[k as int],
                            move_id - mc,
                        ));
                        assert(residual_index(t0, move_id as int) == residual_index(
                            t0.subs[k as int],
                            move_id - mc,
                        ));
                    }
                    r
                },
                None => None,
            }
        }
    }
}


/// The text one node is written as, with the leading node split that move
/// nodes carry.
pub open spec fn node_piece(n: NodeV) -> Seq<char> {
    (if is_move_key(n.key) {
        seq![';']
    } else {
        Seq::<char>::empty()
    }) + node_text(n)
}

/// The text of a run of nodes.
pub open spec fn nodes_text(nodes: Seq<NodeV>) -> Seq<char>
    decreases nodes.len(),
{
    if nodes.len() == 0 {
        Seq::empty()
    } else {
        nodes_text(nodes.drop_last()) + node_piece(nodes.last())
    }
}

/// The text one tree serializes to: the root opens with `(;`, every other
/// segment with a bare `(`; the segment's own nodes come first, then its
/// variations, then the closing `)`.
pub open spec fn tree_text(t: TreeV) -> Seq<char>
    decreases t,
    via tree_text_dec
{
    (if t.is_root {
        seq!['(', ';']
    } else {
        seq!['(']
    }) + nodes_text(t.nodes) + subs_text(t.subs) + seq![')']
}

/// The text of a run of variations, in list order.
pub open spec fn subs_text(subs: Seq<TreeV>) -> Seq<char>
    decreases subs,
    via subs_text_dec
{
    if subs.len() == 0 {
        Seq::empty()
    } else {
        subs_text(subs.drop_last()) + tree_text(subs.last())
    }
}

#[via_fn]
proof fn tree_text_dec(t: TreeV) {
    assert(decreases_to!(t => t.subs));
}

#[via_fn]
proof fn subs_text_dec(subs: Seq<TreeV>) {
    if subs.len() > 0 {
        assert(subs.drop_last() == subs.subrange(0, subs.len() - 1));
        assert(decreases_to!(subs => subs.subrange(0, subs.len() - 1)));
        assert(decreases_to!(subs => subs[subs.len() - 1]));
    }
}

impl GameTree {
    /// The record text this tree serializes to.
    pub fn _to_string(&self) -> (r: Option<String>)
        ensures
            r matches Some(s) && s@ == tree_text(self@),
        decreases *self,
    {
        proof {
            reveal_strlit("(;");
            reveal_strlit("(");
            reveal_strlit(")");
            reveal_strlit(";");
        }
        let ghost t0 = self@;
        let mut sgf_str = String::new();
        if self.is_root {
            sgf_str.append("(;");
        } else {
            sgf_str.append("(");
        }
        let ghost open_text = if t0.is_root { seq!['(', ';'] } else { seq!['('] };
        proof {
            assert(sgf_str@ =~= open_text);
            assert(t0.nodes.take(0) =~= Seq::<NodeV>::empty());
            assert(open_text + nodes_text(t0.nodes.take(0)) =~= open_text);
        }
        let mut i: usize = 0;
        while i < self.nodes.len()
            invariant
                0 <= i <= self.nodes@.len(),
                t0 == self@,
                t0.nodes.len() == self.nodes@.len(),
                open_text == (if t0.is_root { seq!['(', ';'] } else { seq!['('] }),
                sgf_str@ == open_text + nodes_text(t0.nodes.take(i as int)),
            decreases self.nodes@.len() - i,
        {
            let node = &self.nodes[i];
            if matches!(node.node_key, SgfToken::B) || matches!(node.node_key, SgfToken::W) {
                sgf_str.append(";");
            }
            let piece = SgfNode::_to_string(node.dup());
            sgf_str.append(piece.as_str());
            proof {
                reveal_strlit(";");
                assert(t0.nodes.take(i as int + 1).drop_last() =~= t0.nodes.take(i as int));
                assert(t0.nodes.take(i as int + 1).last() == t0.nodes[i as int]);
                assert(sgf_str@ =~= open_text + nodes_text(t0.nodes.take(i as int + 1)));
            }
            i = i + 1;
        }
        proof {
            lemma_trees_view(self.sub_game_trees@);
            assert(t0.nodes.take(t0.nodes.len() as int) =~= t0.nodes);
            assert(t0.subs.take(0) =~= Seq::<TreeV>::empty());
            assert(sgf_str@ + subs_text(t0.subs.take(0)) =~= sgf_str@);
        }
        let ghost mid_text = sgf_str@;
        let mut k: usize = 0;
        while k < self.sub_game_trees.len()
            invariant
                0 <= k <= self.sub_game_trees@.len(),
                t0 == self@,
                t0.subs.len() == self.sub_game_trees@.len(),
                forall|j: int| 0 <= j < t0.subs.len() ==> t0.subs[j] == tree_view(
                    self.sub_game_trees@[j],
                ),
                sgf_str@ == mid_text + subs_text(t0.subs.take(k as int)),
                decreases_to!(*self => self.sub_game_trees),
            decreases self.sub_game_trees@.len() - k,
        {
            proof {
                assert(decreases_to!(self.sub_game_trees => self.sub_game_trees[k as int]));
            }
            match self.sub_game_trees[k]._to_string() {
                Some(sub_str) => {
                    sgf_str.append(sub_str.as_str());
                },
                None => {
                    assert(false);
                },
            }
            proof {
                assert(t0.subs.take(k as int + 1).drop_last() =~= t0.subs.take(k as int));
                assert(t0.subs.take(k as int + 1).last() == t0.subs[k as int]);
                assert(sgf_str@ =~= mid_text + subs_text(t0.subs.take(k as int + 1)));
            }
            k = k + 1;
        }
        sgf_str.append(")");
        proof {
            assert(t0.subs.take(t0.subs.len() as int) =~= t0.subs);
            assert(sgf_str@ =~= tree_text(t0));
        }
        Some(sgf_str)
    }
}


/// The character a decimal digit is written as.
pub open spec fn digit_char(d: int) -> char {
    if d == 0 { '0' }
    else if d == 1 { '1' }
    else if d == 2 { '2' }
    else if d == 3 { '3' }
    else if d == 4 { '4' }
    else if d == 5 { '5' }
    else if d == 6 { '6' }
    else if d == 7 { '7' }
    else if d == 8 { '8' }
    else if d == 9 { '9' }
    else { '0' }
}

/// The decimal digits of a non-negative number, most significant first.
pub open spec fn spec_digits(n: int) -> Seq<char>
    decreases n,
    when n >= 0
{
    if n < 10 {
        seq![digit_char(n)]
    } else {
        spec_digits(n / 10).push(digit_char(n % 10))
    }
}

/// The decimal text of a number, with a leading minus for negatives.
pub open spec fn spec_int_chars(n: int) -> Seq<char> {
    if n < 0 {
        seq!['-'] + spec_digits(-n)
    } else {
        spec_digits(n)
    }
}

/// The character of one digit.
fn digit_char_exec(d: i64) -> (r: char)
    requires
        0 <= d <= 9,
    ensures
        r == digit_char(d as int),
{
    match d {
        0 => '0',
        1 => '1',
        2 => '2',
        3 => '3',
        4 => '4',
        5 => '5',
        6 => '6',
        7 => '7',
        8 => '8',
        _ => '9',
    }
}

/// Reversing after an append puts the new element in front.
proof fn lemma_reverse_push(s: Seq<char>, c: char)
    ensures
        s.push(c).reverse() =~= seq![c] + s.reverse(),
{
}

/// The decimal text of a number.
pub fn int_to_string(n: i32) -> (r: String)
    ensures
        r@ == spec_int_chars(n as int),
{
    let neg = n < 0;
    let mut m: i64 = n as i64;
    if neg {
        m = -m;
    }
    let ghost m0 = m as int;
    let mut rev: Vec<char> = Vec::new();
    proof {
        assert(rev@.reverse() =~= Seq::<char>::empty());
        assert(spec_digits(m0) + Seq::<char>::empty() =~= spec_digits(m0));
    }
    loop
        invariant_except_break
            0 <= m <= m0,
            m0 <= i64::MAX,
            spec_digits(m0) == spec_digits(m as int) + rev@.reverse(),
        ensures
            spec_digits(m0) == rev@.reverse(),
        decreases m,
    {
        let d = m % 10;
        let ghost mold = m as int;
        let ghost revold = rev@;
        rev.push(digit_char_exec(d));
        m = m / 10;
        proof {
            lemma_reverse_push(revold, digit_char(mold % 10));
            if mold >= 10 {
                assert(spec_digits(mold) == spec_digits(mold / 10).push(digit_char(mold % 10)));
                assert(spec_digits(mold / 10).push(digit_char(mold % 10)) + revold.reverse()
                    =~= spec_digits(mold / 10) + (seq![digit_char(mold % 10)] + revold.reverse()));
            } else {
                assert(spec_digits(mold) =~= seq![digit_char(mold)]);
                assert(spec_digits(mold) + revold.reverse() =~= seq![digit_char(mold)]
                    + revold.reverse());
            }
        }
        if m == 0 {
            break ;
        }
    }
    let mut s = String::new();
    if neg {
        s.push('-');
    }
    let ghost sign_text = if neg { seq!['-'] } else { Seq::<char>::empty() };
    let ghost digits = rev@.reverse();
    proof {
        assert(s@ =~= sign_text);
        assert(digits.take(0) =~= Seq::<char>::empty());
        assert(sign_text + digits.take(0) =~= sign_text);
    }
    let n_digits = rev.len();
    let mut k: usize = 0;
    while k < n_digits
        invariant
            0 <= k <= n_digits,
            n_digits == rev@.len(),
            digits == rev@.reverse(),
            sign_text == (if neg { seq!['-'] } else { Seq::<char>::empty() }),
            s@ == sign_text + digits.take(k as int),
        decreases n_digits - k,
    {
        s.push(rev[n_digits - 1 - k]);
        proof {
            assert(digits[k as int] == rev@[n_digits - 1 - k as int]);
            assert(digits.take(k as int + 1).drop_last() =~= digits.take(k as int));
            assert(s@ =~= sign_text + digits.take(k as int + 1));
        }
        k = k + 1;
    }
    proof {
        assert(digits.take(digits.len() as int) =~= digits);
        if neg {
            assert(0 - (n as int) == m0);
            assert(s@ =~= spec_int_chars(n as int));
        } else {
            assert(s@ =~= spec_int_chars(n as int));
        }
    }
    s
}

/// A character the date text may hold: a digit, a year sign, or one of the
/// fixed separators of the date format.
pub open spec fn date_char(c: char) -> bool {
    (48 <= c as int && c as int <= 57) || c == '-' || c == '+' || c == ':' || c == ' '
}

/// Relies on std's `SystemTime::now`: one clock reading, converted to the
/// seconds it stands past the epoch (`duration_since` and `as_secs` only
/// turn the reading into that plain number); a clock set before 1970 reads
/// as zero rather than failing.
#[verifier::external_body]
fn now_unix_seconds() -> i64 {
    std::time::SystemTime::now()
        .duration_since(std::time::UNIX_EPOCH)
        .map(|d| d.as_secs() as i64)
        .unwrap_or(0)
}

/// Relies on chrono's `DateTime::from_timestamp` and `format`: the given
/// moment written as `%Y-%m-%d %H:%M:%S`; seconds outside chrono's range
/// fall back to the epoch rather than failing. The numeric fields print
/// digits with a sign only on years outside `0000..=9999`, and the format's
/// own separators are `-`, `:` and the space, so every character of the
/// text is a date character; with the year zero-padded to four digits and
/// every other field to two, the text is never shorter than the format's
/// nineteen fixed positions.
#[verifier::external_body]
fn date_string_of(secs: i64) -> (r: String)
    ensures
        forall|k: int| 0 <= k < r@.len() ==> date_char(#[trigger] r@[k]),
        r@.len() >= 19,
{
    let utc = chrono::DateTime::<chrono::Utc>::from_timestamp(secs, 0).unwrap_or(
        chrono::DateTime::<chrono::Utc>::UNIX_EPOCH,
    );
    format!("{}", utc.format("%Y-%m-%d %H:%M:%S"))
}

impl GameTree {
    /// A fresh root for a new game: the fixed header nodes (game, file
    /// format, charset, application tag, komi, size, date, player names)
    /// seeded in order, no moves and no variations. The komi is taken as
    /// already-formatted text; the date node's value comes from the clock
    /// and is not specified further.
    pub fn create(km: String, sz: i32, pb: String, pw: String) -> (r: Self)
        ensures
            r@.is_root,
            r@.selected,
            r@.subs.len() == 0,
            r@.nodes.len() == 9,
            r@.nodes[0] == (NodeV { key: TokenV::GM, val: seq!['1'] }),
            r@.nodes[1] == (NodeV { key: TokenV::FF, val: seq!['4'] }),
            r@.nodes[2] == (NodeV { key: TokenV::CA, val: seq!['u', 't', 'f', '-', '8'] }),
            r@.nodes[3] == (NodeV { key: TokenV::AP, val: seq!['f', 'a', 's', 't', 'g', 'o'] }),
            r@.nodes[4] == (NodeV { key: TokenV::KM, val: km@ }),
            r@.nodes[5] == (NodeV { key: TokenV::SZ, val: spec_int_chars(sz as int) }),
            r@.nodes[6].key == TokenV::DT,
            r@.nodes[6].val.len() >= 19,
            forall|k: int| 0 <= k < r@.nodes[6].val.len() ==> date_char(
                #[trigger] r@.nodes[6].val[k],
            ),
            r@.nodes[7] == (NodeV { key: TokenV::PB, val: pb@ }),
            r@.nodes[8] == (NodeV { key: TokenV::PW, val: pw@ }),
    {
        proof {
            reveal_strlit("utf-8");
            reveal_strlit("fastgo");
        }
        let mut nodes: Vec<SgfNode> = Vec::new();
        nodes.push(SgfNode::new(SgfToken::GM, int_to_string(1)));
        nodes.push(SgfNode::new(SgfToken::FF, int_to_string(4)));
        nodes.push(SgfNode::new(SgfToken::CA, "utf-8".to_owned()));
        nodes.push(SgfNode::new(SgfToken::AP, "fastgo".to_owned()));
        nodes.push(SgfNode::new(SgfToken::KM, km));
        nodes.push(SgfNode::new(SgfToken::SZ, int_to_string(sz)));
        nodes.push(SgfNode::new(SgfToken::DT, date_string_of(now_unix_seconds())));
        nodes.push(SgfNode::new(SgfToken::PB, pb));
        nodes.push(SgfNode::new(SgfToken::PW, pw));
        let game_tree = GameTree {
            is_root: true,
            selected: true,
            nodes,
            sub_game_trees: Vec::new(),
        };
        proof {
            assert(spec_digits(1) =~= seq!['1']);
            assert(spec_digits(4) =~= seq!['4']);
            assert(game_tree@.subs =~= Seq::<TreeV>::empty());
            assert(("utf-8")@ =~= seq!['u', 't', 'f', '-', '8']);
            assert(("fastgo")@ =~= seq!['f', 'a', 's', 't', 'g', 'o']);
        }
        game_tree
    }
}


#[verifier::external_type_specification]
#[verifier::external_body]
pub struct ExJsonValue(json::JsonValue);

/// Whether a JSON value is an object.
pub uninterp spec fn json_is_object(v: json::JsonValue) -> bool;

/// Whether a JSON value is an array.
pub uninterp spec fn json_is_array(v: json::JsonValue) -> bool;

/// The members an object value holds, by key text.
pub uninterp spec fn json_entries(v: json::JsonValue) -> Map<Seq<char>, json::JsonValue>;

/// The elements an array value holds, in order.
pub uninterp spec fn json_items(v: json::JsonValue) -> Seq<json::JsonValue>;

/// The truth a boolean value carries.
pub uninterp spec fn json_bool_of(v: json::JsonValue) -> bool;

/// The text a string value carries.
pub uninterp spec fn json_str_of(v: json::JsonValue) -> Seq<char>;

/// An object value with no members.
pub open spec fn json_empty_object(v: json::JsonValue) -> bool {
    json_is_object(v) && json_entries(v) == Map::<Seq<char>, json::JsonValue>::empty()
}

/// Relies on json's `JsonValue::new_object`: a fresh object value with no
/// members.
#[verifier::external_body]
fn json_new_object() -> (r: json::JsonValue)
    ensures
        json_empty_object(r),
{
    json::JsonValue::new_object()
}

/// Relies on json's `JsonValue::new_array`: a fresh array value with no
/// elements.
#[verifier::external_body]
fn json_new_array() -> (r: json::JsonValue)
    ensures
        json_is_array(r),
        json_items(r) == Seq::<json::JsonValue>::empty(),
{
    json::JsonValue::new_array()
}

/// Relies on json's `JsonValue::Boolean`: the given truth as a value.
#[verifier::external_body]
fn json_bool(b: bool) -> (r: json::JsonValue)
    ensures
        json_bool_of(r) == b,
{
    json::JsonValue::Boolean(b)
}

/// Relies on json's `From<&str>`: the given text as a string value (stored
/// inline when short enough).
#[verifier::external_body]
fn json_string(s: &str) -> (r: json::JsonValue)
    ensures
        json_str_of(r) == s@,
{
    json::JsonValue::from(s)
}

/// Relies on json's `IndexMut<&str>`: stores the value under the key,
/// replacing the target with a fresh object first when it is not an object.
#[verifier::external_body]
fn json_set(obj: &mut json::JsonValue, key: &str, val: json::JsonValue)
    ensures
        json_is_object(*final(obj)),
        json_entries(*final(obj)) == (if json_is_object(*old(obj)) {
            json_entries(*old(obj))
        } else {
            Map::<Seq<char>, json::JsonValue>::empty()
        }).insert(key@, val),
{
    obj[key] = val;
}

/// Relies on json's `JsonValue::push`: appends to an array value; any other
/// target is left untouched and the failure is discarded.
#[verifier::external_body]
fn json_push(arr: &mut json::JsonValue, val: json::JsonValue)
    ensures
        json_is_array(*old(arr)) ==> json_is_array(*final(arr)) && json_items(*final(arr))
            == json_items(*old(arr)).push(val),
        !json_is_array(*old(arr)) ==> *final(arr) == *old(arr),
{
    let _ = arr.push(val);
}

/// The member key the selection flag is exported under.
pub open spec fn selected_key() -> Seq<char> {
    seq!['s', 'e', 'l', 'e', 'c', 't', 'e', 'd']
}

/// The member key the node list is exported under.
pub open spec fn nodes_key() -> Seq<char> {
    seq!['n', 'o', 'd', 'e', 's']
}

/// The member key the variation list is exported under.
pub open spec fn sub_trees_key() -> Seq<char> {
    seq!['s', 'u', 'b', '_', 't', 'r', 'e', 'e', 's']
}

/// Whether a JSON value is the export of one node: an object with the
/// node's key text as its one member, mapped to the node's value text.
pub open spec fn json_node_match(o: json::JsonValue, n: NodeV) -> bool {
    &&& json_is_object(o)
    &&& json_entries(o).dom() == set![key_chars(n.key)]
    &&& json_str_of(json_entries(o)[key_chars(n.key)]) == n.val
}

/// Whether a JSON value is the export of a tree: an object whose `selected`
/// member carries the segment's flag, whose `nodes` member is the array of
/// its nodes' exports in order, and whose `sub_trees` member — present
/// exactly when variations exist — holds their exports recursively.
pub open spec fn json_tree_match(j: json::JsonValue, t: TreeV) -> bool
    decreases t,
    via json_tree_match_dec
{
    &&& json_is_object(j)
    &&& json_entries(j).dom() == (if t.subs.len() > 0 {
        set![selected_key(), nodes_key(), sub_trees_key()]
    } else {
        set![selected_key(), nodes_key()]
    })
    &&& json_bool_of(json_entries(j)[selected_key()]) == t.selected
    &&& json_is_array(json_entries(j)[nodes_key()])
    &&& json_items(json_entries(j)[nodes_key()]).len() == t.nodes.len()
    &&& forall|k: int| 0 <= k < t.nodes.len() ==> json_node_match(
        #[trigger] json_items(json_entries(j)[nodes_key()])[k],
        t.nodes[k],
    )
    &&& t.subs.len() > 0 ==> json_is_array(json_entries(j)[sub_trees_key()])
        && json_subs_items_match(json_items(json_entries(j)[sub_trees_key()]), t.subs)
}

/// Whether array elements are the exports of a run of variations, in order.
pub open spec fn json_subs_items_match(items: Seq<json::JsonValue>, subs: Seq<TreeV>) -> bool
    decreases subs,
    via json_subs_items_match_dec
{
    &&& items.len() == subs.len()
    &&& (subs.len() == 0 || (json_tree_match(items[0], subs[0]) && json_subs_items_match(
        items.drop_first(),
        subs.drop_first(),
    )))
}

#[via_fn]
proof fn json_tree_match_dec(j: json::JsonValue, t: TreeV) {
    assert(decreases_to!(t => t.subs));
}

#[via_fn]
proof fn json_subs_items_match_dec(items: Seq<json::JsonValue>, subs: Seq<TreeV>) {
    if subs.len() > 0 {
        assert(decreases_to!(subs => subs[0]));
        assert(subs.drop_first() == subs.subrange(1, subs.len() as int));
        assert(decreases_to!(subs => subs.subrange(1, subs.len() as int)));
    }
}

/// Element-by-element matching makes a matching run.
proof fn lemma_json_subs_items(items: Seq<json::JsonValue>, subs: Seq<TreeV>)
    requires
        items.len() == subs.len(),
        forall|k: int| 0 <= k < subs.len() ==> json_tree_match(#[trigger] items[k], subs[k]),
    ensures
        json_subs_items_match(items, subs),
    decreases subs.len(),
{
    if subs.len() > 0 {
        assert forall|k: int| 0 <= k < subs.drop_first().len() implies json_tree_match(
            #[trigger] items.drop_first()[k],
            subs.drop_first()[k],
        ) by {
            assert(items.drop_first()[k] == items[k + 1]);
            assert(subs.drop_first()[k] == subs[k + 1]);
        }
        lemma_json_subs_items(items.drop_first(), subs.drop_first());
    }
}

impl GameTree {
    /// The diagnostic export of this tree: an object holding its selection
    /// flag under `selected`, its nodes in order as one-key objects under
    /// `nodes`, and, exactly when variations exist, their exports in order
    /// under `sub_trees`, recursively.
    pub fn to_json(&self) -> (r: Option<json::JsonValue>)
        ensures
            r matches Some(j) && json_tree_match(j, self@),
        decreases *self,
    {
        let ghost t0 = self@;
        let mut root = json_new_object();
        let mut nodes = json_new_array();
        let mut i: usize = 0;
        while i < self.nodes.len()
            invariant
                0 <= i <= self.nodes@.len(),
                t0 == self@,
                t0.nodes.len() == self.nodes@.len(),
                json_is_array(nodes),
                json_items(nodes).len() == i,
                forall|k: int| 0 <= k < i ==> json_node_match(
                    #[trigger] json_items(nodes)[k],
                    t0.nodes[k],
                ),
            decreases self.nodes@.len() - i,
        {
            let node = &self.nodes[i];
            let ghost items0 = json_items(nodes);
            let mut obj = json_new_object();
            let val = json_string(node.node_val.as_str());
            let ghost val_g = val;
            json_set(&mut obj, crate::sgf::key_str(&node.node_key), val);
            let ghost obj_g = obj;
            proof {
                assert(json_entries(obj_g).dom() =~= set![key_chars(t0.nodes[i as int].key)]);
                assert(json_node_match(obj_g, t0.nodes[i as int]));
            }
            json_push(&mut nodes, obj);
            proof {
                assert forall|k: int| 0 <= k < i + 1 implies json_node_match(
                    #[trigger] json_items(nodes)[k],
                    t0.nodes[k],
                ) by {
                    if k < i {
                        assert(json_items(nodes)[k] == items0[k]);
                    } else {
                        assert(json_items(nodes)[k] == obj_g);
                    }
                }
            }
            i = i + 1;
        }
        proof {
            reveal_strlit("selected");
            reveal_strlit("nodes");
            reveal_strlit("sub_trees");
            assert(("selected")@ =~= selected_key());
            assert(("nodes")@ =~= nodes_key());
            assert(("sub_trees")@ =~= sub_trees_key());
        }
        let sel_val = json_bool(self.selected);
        let ghost sel_g = sel_val;
        json_set(&mut root, "selected", sel_val);
        let ghost nodes_g = nodes;
        json_set(&mut root, "nodes", nodes);
        proof {
            assert(selected_key().len() != nodes_key().len());
            assert(json_entries(root)[selected_key()] == sel_g);
            assert(json_entries(root)[nodes_key()] == nodes_g);
        }
        if self.sub_game_trees.len() > 0 {
            let mut sub_game_trees_json = json_new_array();
            let mut k: usize = 0;
            proof {
                lemma_trees_view(self.sub_game_trees@);
            }
            while k < self.sub_game_trees.len()
                invariant
                    0 <= k <= self.sub_game_trees@.len(),
                    t0 == self@,
                    t0.subs.len() == self.sub_game_trees@.len(),
                    forall|j: int| 0 <= j < t0.subs.len() ==> t0.subs[j] == tree_view(
                        self.sub_game_trees@[j],
                    ),
                    json_is_array(sub_game_trees_json),
                    json_items(sub_game_trees_json).len() == k,
                    forall|j: int| 0 <= j < k ==> json_tree_match(
                        #[trigger] json_items(sub_game_trees_json)[j],
                        t0.subs[j],
                    ),
                    decreases_to!(*self => self.sub_game_trees),
                decreases self.sub_game_trees@.len() - k,
            {
                let ghost items0 = json_items(sub_game_trees_json);
                proof {
                    assert(decreases_to!(self.sub_game_trees => self.sub_game_trees[k as int]));
                }
                match self.sub_game_trees[k].to_json() {
                    Some(sub_json) => {
                        let ghost sub_g = sub_json;
                        json_push(&mut sub_game_trees_json, sub_json);
                        proof {
                            assert forall|j: int| 0 <= j < k + 1 implies json_tree_match(
                                #[trigger] json_items(sub_game_trees_json)[j],
                                t0.subs[j],
                            ) by {
                                if j < k {
                                    assert(json_items(sub_game_trees_json)[j] == items0[j]);
                                } else {
                                    assert(json_items(sub_game_trees_json)[j] == sub_g);
                                }
                            }
                        }
                    },
                    None => {
                        assert(false);
                    },
                }
                k = k + 1;
            }
            let ghost subs_g = sub_game_trees_json;
            json_set(&mut root, "sub_trees", sub_game_trees_json);
            proof {
                assert(sub_trees_key().len() != selected_key().len());
                assert(sub_trees_key().len() != nodes_key().len());
                assert(json_entries(root)[selected_key()] == sel_g);
                assert(json_entries(root)[nodes_key()] == nodes_g);
                assert(json_entries(root)[sub_trees_key()] == subs_g);
                assert(json_entries(root).dom() =~= set![
                    selected_key(),
                    nodes_key(),
                    sub_trees_key(),
                ]);
                lemma_json_subs_items(json_items(subs_g), t0.subs);
                assert(json_tree_match(root, t0));
            }
        } else {
            proof {
                assert(json_entries(root).dom() =~= set![selected_key(), nodes_key()]);
                assert(json_tree_match(root, t0));
            }
        }
        Some(root)
    }
}


/// Structural equality of trees: everything but the selection flags.
pub open spec fn eq_shape(a: TreeV, b: TreeV) -> bool
    decreases a,
    via eq_shape_dec
{
    &&& a.is_root == b.is_root
    &&& a.nodes == b.nodes
    &&& eq_shapes(a.subs, b.subs)
}

/// Structural equality of variation runs.
pub open spec fn eq_shapes(xs: Seq<TreeV>, ys: Seq<TreeV>) -> bool
    decreases xs,
    via eq_shapes_dec
{
    &&& xs.len() == ys.len()
    &&& (xs.len() == 0 || (eq_shape(xs[0], ys[0]) && eq_shapes(xs.drop_first(), ys.drop_first())))
}

#[via_fn]
proof fn eq_shape_dec(a: TreeV, b: TreeV) {
    assert(decreases_to!(a => a.subs));
}

#[via_fn]
proof fn eq_shapes_dec(xs: Seq<TreeV>, ys: Seq<TreeV>) {
    if xs.len() > 0 {
        assert(decreases_to!(xs => xs[0]));
        assert(xs.drop_first() == xs.subrange(1, xs.len() as int));
        assert(decreases_to!(xs => xs.subrange(1, xs.len() as int)));
    }
}

/// Run equality, element by element.
pub proof fn lemma_eq_shapes_iff(xs: Seq<TreeV>, ys: Seq<TreeV>)
    ensures
        eq_shapes(xs, ys) <==> (xs.len() == ys.len() && forall|k: int|
            0 <= k < xs.len() ==> eq_shape(#[trigger] xs[k], ys[k])),
    decreases xs.len(),
{
    if xs.len() > 0 && xs.len() == ys.len() {
        lemma_eq_shapes_iff(xs.drop_first(), ys.drop_first());
        if eq_shapes(xs, ys) {
            assert forall|k: int| 0 <= k < xs.len() implies eq_shape(#[trigger] xs[k], ys[k]) by {
                if k > 0 {
                    assert(xs.drop_first()[k - 1] == xs[k]);
                    assert(ys.drop_first()[k - 1] == ys[k]);
                    assert(eq_shape(xs.drop_first()[k - 1], ys.drop_first()[k - 1]));
                }
            }
        }
        if xs.len() == ys.len() && forall|k: int|
            0 <= k < xs.len() ==> eq_shape(#[trigger] xs[k], ys[k]) {
            assert forall|k: int|
                0 <= k < xs.drop_first().len() implies eq_shape(
                #[trigger] xs.drop_first()[k],
                ys.drop_first()[k],
            ) by {
                assert(xs.drop_first()[k] == xs[k + 1]);
                assert(ys.drop_first()[k] == ys[k + 1]);
            }
        }
    }
}

/// Every tree has its own shape.
pub proof fn lemma_eq_shape_refl(a: TreeV)
    ensures
        eq_shape(a, a),
    decreases a,
{
    assert(decreases_to!(a => a.subs));
    lemma_eq_shapes_refl(a.subs);
}

proof fn lemma_eq_shapes_refl(xs: Seq<TreeV>)
    ensures
        eq_shapes(xs, xs),
    decreases xs,
{
    if xs.len() > 0 {
        assert(decreases_to!(xs => xs[0]));
        assert(xs.drop_first() == xs.subrange(1, xs.len() as int));
        assert(decreases_to!(xs => xs.subrange(1, xs.len() as int)));
        lemma_eq_shape_refl(xs[0]);
        lemma_eq_shapes_refl(xs.drop_first());
    }
}


/// At most one line of a sibling group is marked selected.
pub open spec fn at_most_one_selected(subs: Seq<TreeV>) -> bool {
    forall|k1: int, k2: int|
        0 <= k1 < k2 < subs.len() ==> !((#[trigger] subs[k1]).selected
            && (#[trigger] subs[k2]).selected)
}

/// The selection invariant of the data model: in every sibling group of the
/// tree, at most one variation is selected.
pub open spec fn sel_wf_tree(t: TreeV) -> bool
    decreases t,
    via sel_wf_tree_dec
{
    &&& at_most_one_selected(t.subs)
    &&& sel_wf_subs(t.subs)
}

/// Variations all of whose sibling groups keep the selection invariant.
pub open spec fn sel_wf_subs(subs: Seq<TreeV>) -> bool
    decreases subs,
    via sel_wf_subs_dec
{
    subs.len() == 0 || (sel_wf_tree(subs[0]) && sel_wf_subs(subs.drop_first()))
}

#[via_fn]
proof fn sel_wf_tree_dec(t: TreeV) {
    assert(decreases_to!(t => t.subs));
}

#[via_fn]
proof fn sel_wf_subs_dec(subs: Seq<TreeV>) {
    if subs.len() > 0 {
        assert(decreases_to!(subs => subs[0]));
        assert(subs.drop_first() == subs.subrange(1, subs.len() as int));
        assert(decreases_to!(subs => subs.subrange(1, subs.len() as int)));
    }
}

/// Every variation of an invariant-keeping run keeps the invariant.
pub proof fn lemma_sel_wf_elem(subs: Seq<TreeV>, k: int)
    requires
        sel_wf_subs(subs),
        0 <= k < subs.len(),
    ensures
        sel_wf_tree(subs[k]),
    decreases k,
{
    if k > 0 {
        lemma_sel_wf_elem(subs.drop_first(), k - 1);
        assert(subs.drop_first()[k - 1] == subs[k]);
    }
}

/// A run all of whose variations keep the invariant keeps it.
pub proof fn lemma_sel_wf_all(subs: Seq<TreeV>)
    requires
        forall|k: int| 0 <= k < subs.len() ==> sel_wf_tree(#[trigger] subs[k]),
    ensures
        sel_wf_subs(subs),
    decreases subs.len(),
{
    if subs.len() > 0 {
        assert forall|k: int| 0 <= k < subs.drop_first().len() implies sel_wf_tree(
            #[trigger] subs.drop_first()[k],
        ) by {
            assert(subs.drop_first()[k] == subs[k + 1]);
        }
        lemma_sel_wf_all(subs.drop_first());
    }
}

/// Recording keeps the selection invariant: wherever at most one line of
/// every sibling group was selected before the call, at most one is after
/// it — the split leaves exactly its new line selected, re-selection marks
/// at most the first matching line, and the recursion touches one line's
/// own flag not at all.
pub proof fn lemma_record_keeps_selection(t: TreeV, id: int, n: NodeV)
    requires
        sel_wf_tree(t),
    ensures
        sel_wf_tree(record_spec(t, id, n).0),
    decreases t,
{
    let mc = moves_of(t.nodes).len() as int;
    let t1 = record_spec(t, id, n).0;
    if id < 0 {
    } else if id < mc {
        let cut = cut_index(t.nodes, id);
        if t.nodes[cut] == n {
        } else {
            let ds = deselect_all(t.subs);
            assert(ds.len() == t.subs.len());
            assert forall|k1: int, k2: int| 0 <= k1 < k2 < t1.subs.len() implies !((
            #[trigger] t1.subs[k1]).selected && (#[trigger] t1.subs[k2]).selected) by {
                if k1 < ds.len() {
                    assert(t1.subs[k1] == ds[k1]);
                    assert(!ds[k1].selected);
                }
            }
            assert forall|k: int| 0 <= k < t1.subs.len() implies sel_wf_tree(
                #[trigger] t1.subs[k],
            ) by {
                if k < ds.len() {
                    assert(t1.subs[k] == ds[k]);
                    assert(ds[k] == (TreeV { selected: false, ..t.subs[k] }));
                    lemma_sel_wf_elem(t.subs, k);
                    assert(ds[k].subs == t.subs[k].subs);
                } else {
                    assert(t1.subs[k].subs =~= Seq::<TreeV>::empty());
                }
            }
            lemma_sel_wf_all(t1.subs);
        }
    } else if id == mc {
        assert(t1.subs == reselect(t.subs, n));
        assert forall|k1: int, k2: int| 0 <= k1 < k2 < t1.subs.len() implies !((
        #[trigger] t1.subs[k1]).selected && (#[trigger] t1.subs[k2]).selected) by {
            assert(t1.subs[k1] == (TreeV {
                selected: sub_matches(t.subs[k1], n) && first_match(t.subs, n) == k1,
                ..t.subs[k1]
            }));
            assert(t1.subs[k2] == (TreeV {
                selected: sub_matches(t.subs[k2], n) && first_match(t.subs, n) == k2,
                ..t.subs[k2]
            }));
        }
        assert forall|k: int| 0 <= k < t1.subs.len() implies sel_wf_tree(
            #[trigger] t1.subs[k],
        ) by {
            assert(t1.subs[k] == (TreeV {
                selected: sub_matches(t.subs[k], n) && first_match(t.subs, n) == k,
                ..t.subs[k]
            }));
            lemma_sel_wf_elem(t.subs, k);
            assert(t1.subs[k].subs == t.subs[k].subs);
        }
        lemma_sel_wf_all(t1.subs);
    } else {
        if has_selected(t.subs) {
            lemma_first_selected(t.subs);
            let k = first_selected(t.subs);
            let rec = record_spec(t.subs[k], id - mc, n);
            lemma_sel_wf_elem(t.subs, k);
            assert(decreases_to!(t => t.subs));
            assert(decreases_to!(t.subs => t.subs[k]));
            lemma_record_keeps_selection(t.subs[k], id - mc, n);
            lemma_record_keeps_selected(t.subs[k], id - mc, n);
            assert(t1.subs == t.subs.update(k, rec.0));
            assert forall|k1: int, k2: int| 0 <= k1 < k2 < t1.subs.len() implies !((
            #[trigger] t1.subs[k1]).selected && (#[trigger] t1.subs[k2]).selected) by {
                assert(t1.subs[k1].selected == t.subs[k1].selected);
                assert(t1.subs[k2].selected == t.subs[k2].selected);
            }
            assert forall|k2: int| 0 <= k2 < t1.subs.len() implies sel_wf_tree(
                #[trigger] t1.subs[k2],
            ) by {
                if k2 == k {
                    assert(t1.subs[k2] == rec.0);
                } else {
                    assert(t1.subs[k2] == t.subs[k2]);
                    lemma_sel_wf_elem(t.subs, k2);
                }
            }
            lemma_sel_wf_all(t1.subs);
        }
    }
}

/// Recording never touches the selection flag of the segment it lands in.
pub proof fn lemma_record_keeps_selected(t: TreeV, id: int, n: NodeV)
    ensures
        record_spec(t, id, n).0.selected == t.selected,
        record_spec(t, id, n).0.is_root == t.is_root,
{
}

/// The move nodes of a run extended by one move node.
pub proof fn lemma_moves_of_snoc(ns: Seq<NodeV>, n: NodeV)
    requires
        is_move_key(n.key),
    ensures
        moves_of(ns.push(n)) == moves_of(ns).push(n),
    decreases ns.len(),
{
    if ns.len() == 0 {
        assert(ns.push(n)[0] == n);
        assert(ns.push(n).drop_first() =~= Seq::<NodeV>::empty());
        assert(moves_of(ns.push(n)) =~= seq![n] + moves_of(Seq::<NodeV>::empty()));
        assert(moves_of(ns).push(n) =~= seq![n]);
        assert(seq![n] + Seq::<NodeV>::empty() =~= seq![n]);
    } else {
        assert(ns.push(n)[0] == ns[0]);
        assert(ns.push(n).drop_first() =~= ns.drop_first().push(n));
        lemma_moves_of_snoc(ns.drop_first(), n);
        if is_move_key(ns[0].key) {
            assert(seq![ns[0]] + moves_of(ns.drop_first()).push(n) =~= (seq![ns[0]] + moves_of(
                ns.drop_first(),
            )).push(n));
        }
    }
}

/// A move appended to a run stands at its very end.
pub proof fn lemma_cut_index_snoc(ns: Seq<NodeV>, n: NodeV)
    requires
        is_move_key(n.key),
    ensures
        cut_index(ns.push(n), moves_of(ns).len() as int) == ns.len(),
    decreases ns.len(),
{
    if ns.len() == 0 {
        assert(ns.push(n)[0] == n);
    } else {
        assert(ns.push(n)[0] == ns[0]);
        assert(ns.push(n).drop_first() =~= ns.drop_first().push(n));
        lemma_cut_index_snoc(ns.drop_first(), n);
    }
}

/// Recording the same encoded move at the same index a second time leaves
/// the tree's structure as the first recording left it: the same nodes in
/// every segment and the same number of variations under each.
pub proof fn lemma_record_move_idempotent(t: TreeV, id: int, n: NodeV)
    requires
        0 <= id,
        is_move_key(n.key),
    ensures
        record_spec(record_spec(t, id, n).0, id, n).1,
        eq_shape(record_spec(record_spec(t, id, n).0, id, n).0, record_spec(t, id, n).0),
    decreases t,
{
    let mc = moves_of(t.nodes).len() as int;
    let t1 = record_spec(t, id, n).0;
    if id < mc {
        let cut = cut_index(t.nodes, id);
        if t.nodes[cut] == n {
            lemma_eq_shape_refl(t1);
        } else {
            lemma_cut_index(t.nodes, id);
            let mc1 = moves_of(t1.nodes).len() as int;
            assert(mc1 == id);
            let new_sel = TreeV {
                is_root: false,
                selected: true,
                nodes: seq![n],
                subs: Seq::empty(),
            };
            assert(t1.subs[t.subs.len() as int] == new_sel) by {
                assert(deselect_all(t.subs).len() == t.subs.len());
            }
            assert(some_sub_matches(t1.subs, n)) by {
                assert(t1.subs[t.subs.len() as int].nodes.len() > 0
                    && t1.subs[t.subs.len() as int].nodes[0] == n);
            }
            let t2 = record_spec(t1, id, n).0;
            assert(t2 == TreeV { subs: reselect(t1.subs, n), ..t1 });
            lemma_eq_shapes_iff(t2.subs, t1.subs);
            assert forall|k: int| 0 <= k < t2.subs.len() implies eq_shape(
                #[trigger] t2.subs[k],
                t1.subs[k],
            ) by {
                assert(t2.subs[k] == (TreeV {
                    selected: sub_matches(t1.subs[k], n) && first_match(t1.subs, n) == k,
                    ..t1.subs[k]
                }));
                lemma_eq_shape_refl(t1.subs[k]);
                lemma_eq_shapes_iff(t2.subs[k].subs, t1.subs[k].subs);
            }
            assert(eq_shape(t2, t1));
        }
    } else if id == mc {
        if some_sub_matches(t.subs, n) {
            assert(t1 == TreeV { subs: reselect(t.subs, n), ..t });
            assert(moves_of(t1.nodes).len() as int == mc);
            assert(some_sub_matches(t1.subs, n)) by {
                let k = choose|k: int|
                    0 <= k < t.subs.len() && t.subs[k].nodes.len() > 0 && t.subs[k].nodes[0] == n;
                assert(t1.subs[k].nodes == t.subs[k].nodes);
            }
            let t2 = record_spec(t1, id, n).0;
            lemma_eq_shapes_iff(t2.subs, t1.subs);
            assert forall|k: int| 0 <= k < t2.subs.len() implies eq_shape(
                #[trigger] t2.subs[k],
                t1.subs[k],
            ) by {
                assert(t2.subs[k] == (TreeV {
                    selected: sub_matches(t1.subs[k], n) && first_match(t1.subs, n) == k,
                    ..t1.subs[k]
                }));
                lemma_eq_shape_refl(t1.subs[k]);
                lemma_eq_shapes_iff(t2.subs[k].subs, t1.subs[k].subs);
            }
            assert(eq_shape(t2, t1));
        } else {
            lemma_moves_of_snoc(t.nodes, n);
            let mc1 = moves_of(t1.nodes).len() as int;
            assert(mc1 == mc + 1);
            lemma_cut_index_snoc(t.nodes, n);
            assert(cut_index(t1.nodes, id) == t.nodes.len());
            assert(t1.nodes[cut_index(t1.nodes, id)] == n);
            lemma_eq_shape_refl(t1);
        }
    } else if !has_selected(t.subs) {
        lemma_eq_shape_refl(t1);
    } else {
        lemma_first_selected(t.subs);
        let k = first_selected(t.subs);
        let rec = record_spec(t.subs[k], id - mc, n);
        assert(t1 == TreeV { subs: t.subs.update(k, rec.0), ..t });
        lemma_record_keeps_selected(t.subs[k], id - mc, n);
        assert(t1.subs[k].selected);
        assert forall|k2: int| 0 <= k2 < k implies !t1.subs[k2].selected by {
            assert(t1.subs[k2] == t.subs[k2]);
        }
        lemma_first_selected_prefix(t1.subs, k);
        assert(has_selected(t1.subs) && first_selected(t1.subs) == k);
        assert(moves_of(t1.nodes).len() as int == mc);
        assert(decreases_to!(t => t.subs));
        assert(decreases_to!(t.subs => t.subs[k]));
        lemma_record_move_idempotent(t.subs[k], id - mc, n);
        let rec2 = record_spec(t1.subs[k], id - mc, n);
        let t2 = record_spec(t1, id, n).0;
        assert(t2 == TreeV { subs: t1.subs.update(k, rec2.0), ..t1 });
        lemma_eq_shapes_iff(t2.subs, t1.subs);
        assert forall|k2: int| 0 <= k2 < t2.subs.len() implies eq_shape(
            #[trigger] t2.subs[k2],
            t1.subs[k2],
        ) by {
            if k2 == k {
                assert(t2.subs[k2] == rec2.0);
                assert(t1.subs[k2] == rec.0);
            } else {
                assert(t2.subs[k2] == t1.subs[k2]);
                lemma_eq_shape_refl(t1.subs[k2]);
            }
        }
        assert(eq_shape(t2, t1));
    }
}

/// After a successful mid-segment insertion exactly two new sibling
/// variations exist: the first, holding the inserted move, is the one
/// selected line; the second holds the old remainder and, like every
/// previously existing sibling, is not selected.
pub proof fn lemma_branch_invariant(t: TreeV, id: int, n: NodeV)
    requires
        0 <= id < moves_of(t.nodes).len(),
        t.nodes[cut_index(t.nodes, id)] != n,
    ensures
        record_spec(t, id, n).1,
        record_spec(t, id, n).0.subs.len() == t.subs.len() + 2,
        record_spec(t, id, n).0.subs[t.subs.len() as int].selected,
        record_spec(t, id, n).0.subs[t.subs.len() as int].nodes == seq![n],
        !record_spec(t, id, n).0.subs[t.subs.len() as int + 1].selected,
        record_spec(t, id, n).0.subs[t.subs.len() as int + 1].nodes == t.nodes.skip(
            cut_index(t.nodes, id),
        ),
        forall|k: int| 0 <= k < t.subs.len() ==> !record_spec(t, id, n).0.subs[k].selected,
        record_spec(t, id, n).0.nodes == t.nodes.take(cut_index(t.nodes, id)),
{
    let t1 = record_spec(t, id, n).0;
    assert(deselect_all(t.subs).len() == t.subs.len());
    assert forall|k: int| 0 <= k < t.subs.len() implies !t1.subs[k].selected by {
        assert(t1.subs[k] == deselect_all(t.subs)[k]);
    }
}


/// The tokens one node scans back to.
pub open spec fn node_tokens(n: NodeV) -> Seq<TokenV> {
    seq![n.key, TokenV::VALSTART, TokenV::VAL(n.val), TokenV::VALEND]
}

/// The tokens one node's text scans to, with the node split a move carries.
pub open spec fn node_piece_tokens(n: NodeV) -> Seq<TokenV> {
    (if is_move_key(n.key) {
        seq![TokenV::SPLIT]
    } else {
        Seq::<TokenV>::empty()
    }) + node_tokens(n)
}

/// The tokens of a run of nodes.
pub open spec fn nodes_tokens(nodes: Seq<NodeV>) -> Seq<TokenV>
    decreases nodes.len(),
{
    if nodes.len() == 0 {
        Seq::empty()
    } else {
        nodes_tokens(nodes.drop_last()) + node_piece_tokens(nodes.last())
    }
}

/// The tokens one tree's text scans to.
pub open spec fn tree_tokens(t: TreeV) -> Seq<TokenV>
    decreases t,
    via tree_tokens_dec
{
    (if t.is_root {
        seq![TokenV::SEGSTART, TokenV::SPLIT]
    } else {
        seq![TokenV::SEGSTART]
    }) + nodes_tokens(t.nodes) + subs_tokens(t.subs) + seq![TokenV::SEGEND]
}

/// The tokens of a run of variations.
pub open spec fn subs_tokens(subs: Seq<TreeV>) -> Seq<TokenV>
    decreases subs,
    via subs_tokens_dec
{
    if subs.len() == 0 {
        Seq::empty()
    } else {
        subs_tokens(subs.drop_last()) + tree_tokens(subs.last())
    }
}

#[via_fn]
proof fn tree_tokens_dec(t: TreeV) {
    assert(decreases_to!(t => t.subs));
}

#[via_fn]
proof fn subs_tokens_dec(subs: Seq<TreeV>) {
    if subs.len() > 0 {
        assert(subs.drop_last() == subs.subrange(0, subs.len() - 1));
        assert(decreases_to!(subs => subs.subrange(0, subs.len() - 1)));
        assert(decreases_to!(subs => subs[subs.len() - 1]));
    }
}

/// A raw value the lexer can scan back whole: free of the value terminator.
pub open spec fn val_clean(v: Seq<char>) -> bool {
    forall|k: int| 0 <= k < v.len() ==> v[k] != ']'
}

/// A node whose text scans back to its own tokens.
pub open spec fn text_wf_node(n: NodeV) -> bool {
    is_prop_key(n.key) && val_clean(n.val)
}

/// A tree whose text scans back to its own tokens: every node's key is a
/// recognized one and every value is free of the terminator.
pub open spec fn text_wf_tree(t: TreeV) -> bool
    decreases t,
    via text_wf_tree_dec
{
    &&& forall|k: int| 0 <= k < t.nodes.len() ==> text_wf_node(#[trigger] t.nodes[k])
    &&& text_wf_subs(t.subs)
}

/// Variations whose text scans back to their own tokens.
pub open spec fn text_wf_subs(subs: Seq<TreeV>) -> bool
    decreases subs,
    via text_wf_subs_dec
{
    subs.len() == 0 || (text_wf_tree(subs[0]) && text_wf_subs(subs.drop_first()))
}

#[via_fn]
proof fn text_wf_tree_dec(t: TreeV) {
    assert(decreases_to!(t => t.subs));
}

#[via_fn]
proof fn text_wf_subs_dec(subs: Seq<TreeV>) {
    if subs.len() > 0 {
        assert(decreases_to!(subs => subs[0]));
        assert(subs.drop_first() == subs.subrange(1, subs.len() as int));
        assert(decreases_to!(subs => subs.subrange(1, subs.len() as int)));
    }
}

/// A run of nodes reads from the front as its first piece and the rest.
proof fn lemma_nodes_text_cons(ns: Seq<NodeV>)
    requires
        ns.len() > 0,
    ensures
        nodes_text(ns) == node_piece(ns[0]) + nodes_text(ns.drop_first()),
        nodes_tokens(ns) == node_piece_tokens(ns[0]) + nodes_tokens(ns.drop_first()),
    decreases ns.len(),
{
    if ns.len() == 1 {
        assert(ns.drop_last() =~= Seq::<NodeV>::empty());
        assert(ns.drop_first() =~= Seq::<NodeV>::empty());
        assert(ns.last() == ns[0]);
        assert(nodes_text(ns) =~= node_piece(ns[0]) + nodes_text(ns.drop_first()));
        assert(nodes_tokens(ns) =~= node_piece_tokens(ns[0]) + nodes_tokens(ns.drop_first()));
    } else {
        lemma_nodes_text_cons(ns.drop_last());
        assert(ns.drop_last()[0] == ns[0]);
        assert(ns.drop_last().drop_first() =~= ns.drop_first().drop_last());
        assert(ns.drop_first().last() == ns.last());
        assert(nodes_text(ns) == (node_piece(ns[0]) + nodes_text(ns.drop_first().drop_last()))
            + node_piece(ns.last()));
        assert((node_piece(ns[0]) + nodes_text(ns.drop_first().drop_last())) + node_piece(
            ns.last(),
        ) =~= node_piece(ns[0]) + (nodes_text(ns.drop_first().drop_last()) + node_piece(
            ns.last(),
        )));
        assert(nodes_tokens(ns) == (node_piece_tokens(ns[0]) + nodes_tokens(
            ns.drop_first().drop_last(),
        )) + node_piece_tokens(ns.last()));
        assert((node_piece_tokens(ns[0]) + nodes_tokens(ns.drop_first().drop_last()))
            + node_piece_tokens(ns.last()) =~= node_piece_tokens(ns[0]) + (nodes_tokens(
            ns.drop_first().drop_last(),
        ) + node_piece_tokens(ns.last())));
    }
}

/// A run of variations reads from the front as its first tree and the rest.
proof fn lemma_subs_text_cons(ss: Seq<TreeV>)
    requires
        ss.len() > 0,
    ensures
        subs_text(ss) == tree_text(ss[0]) + subs_text(ss.drop_first()),
        subs_tokens(ss) == tree_tokens(ss[0]) + subs_tokens(ss.drop_first()),
    decreases ss.len(),
{
    if ss.len() == 1 {
        assert(ss.drop_last() =~= Seq::<TreeV>::empty());
        assert(ss.drop_first() =~= Seq::<TreeV>::empty());
        assert(ss.last() == ss[0]);
        assert(subs_text(ss) =~= tree_text(ss[0]) + subs_text(ss.drop_first()));
        assert(subs_tokens(ss) =~= tree_tokens(ss[0]) + subs_tokens(ss.drop_first()));
    } else {
        lemma_subs_text_cons(ss.drop_last());
        assert(ss.drop_last()[0] == ss[0]);
        assert(ss.drop_last().drop_first() =~= ss.drop_first().drop_last());
        assert(ss.drop_first().last() == ss.last());
        assert(subs_text(ss) == (tree_text(ss[0]) + subs_text(ss.drop_first().drop_last()))
            + tree_text(ss.last()));
        assert((tree_text(ss[0]) + subs_text(ss.drop_first().drop_last())) + tree_text(ss.last())
            =~= tree_text(ss[0]) + (subs_text(ss.drop_first().drop_last()) + tree_text(
            ss.last(),
        )));
        assert(subs_tokens(ss) == (tree_tokens(ss[0]) + subs_tokens(ss.drop_first().drop_last()))
            + tree_tokens(ss.last()));
        assert((tree_tokens(ss[0]) + subs_tokens(ss.drop_first().drop_last())) + tree_tokens(
            ss.last(),
        ) =~= tree_tokens(ss[0]) + (subs_tokens(ss.drop_first().drop_last()) + tree_tokens(
            ss.last(),
        )));
    }
}


/// A text that matches a concatenation splits into texts that match the
/// parts.
proof fn lemma_text_split(s: Seq<char>, i: int, a: Seq<char>, b: Seq<char>)
    requires
        0 <= i,
        i + (a + b).len() <= s.len(),
        s.subrange(i, i + (a + b).len() as int) == a + b,
    ensures
        s.subrange(i, i + a.len() as int) == a,
        s.subrange(i + a.len(), i + (a + b).len() as int) == b,
{
    let tl = (a + b).len() as int;
    let al = a.len() as int;
    assert forall|k: int| 0 <= k < al implies s.subrange(i, i + al)[k] == a[k] by {
        assert(s.subrange(i, i + tl)[k] == (a + b)[k]);
        assert((a + b)[k] == a[k]);
        assert(s.subrange(i, i + tl)[k] == s[i + k]);
        assert(s.subrange(i, i + al)[k] == s[i + k]);
    }
    assert(s.subrange(i, i + al) =~= a);
    assert forall|k: int| 0 <= k < b.len() implies s.subrange(i + al, i + tl)[k] == b[k] by {
        assert(s.subrange(i, i + tl)[al + k] == (a + b)[al + k]);
        assert((a + b)[al + k] == b[k]);
        assert(s.subrange(i, i + tl)[al + k] == s[i + al + k]);
        assert(s.subrange(i + al, i + tl)[k] == s[i + al + k]);
    }
    assert(s.subrange(i + al, i + tl) =~= b);
}

/// The single character a one-letter text stands at.
proof fn lemma_text_char(s: Seq<char>, i: int, c: char)
    requires
        0 <= i,
        i + 1 <= s.len(),
        s.subrange(i, i + 1) == seq![c],
    ensures
        s[i] == c,
{
    assert(s.subrange(i, i + 1)[0] == s[i]);
    assert(seq![c][0] == c);
}

/// One serialized node scans to its four tokens and leaves the rest of the
/// text to the scan that follows.
proof fn lemma_lex_node_at(s: Seq<char>, i: int, n: NodeV)
    requires
        0 <= i,
        i + node_text(n).len() <= s.len(),
        s.subrange(i, i + node_text(n).len() as int) == node_text(n),
        text_wf_node(n),
    ensures
        spec_lex(s, i) == node_tokens(n) + spec_lex(s, i + node_text(n).len()),
{
    let kc = key_chars(n.key);
    let kl = kc.len() as int;
    let vl = n.val.len() as int;
    let tl = node_text(n).len() as int;
    crate::sgf::lemma_key_chars_upper(n.key);
    crate::sgf::lemma_key_roundtrip(n.key);
    assert(tl == kl + 2 + vl);
    assert(node_text(n) == ((kc + seq!['[']) + n.val) + seq![']']);
    lemma_text_split(s, i, (kc + seq!['[']) + n.val, seq![']']);
    lemma_text_split(s, i, kc + seq!['['], n.val);
    lemma_text_split(s, i, kc, seq!['[']);
    lemma_text_char(s, i + kl, '[');
    lemma_text_char(s, i + kl + 1 + vl, ']');
    assert forall|k: int| 0 <= k < kl implies s[i + k] == kc[k] by {
        assert(s.subrange(i, i + kl)[k] == s[i + k]);
    }
    assert forall|k: int| i + 1 <= k < i + kl implies crate::sgf::is_upper(#[trigger] s[k]) by {
        assert(s.subrange(i, i + kl)[k - i] == s[k]);
        assert(crate::sgf::is_upper(kc[k - i]));
    }
    assert(s[i] == kc[0]);
    assert(crate::sgf::is_upper(s[i]));
    assert(!(s[i] == '(' || s[i] == ')' || s[i] == ';' || s[i] == '['));
    crate::sgf::lemma_find_run_end_unique(s, i + 1, i + kl);
    assert(crate::sgf::find_run_end(s, i + 1) == i + kl);
    assert(s.subrange(i, i + kl) == kc);
    assert(crate::sgf::key_of_chars(s.subrange(i, i + kl)) == Some(n.key));
    assert(spec_lex(s, i) == seq![n.key] + spec_lex(s, i + kl));
    assert forall|k: int| i + kl + 1 <= k < i + kl + 1 + vl implies #[trigger] s[k] != ']' by {
        assert(s.subrange(i + kl + 1, i + kl + 1 + vl)[k - (i + kl + 1)] == s[k]);
        assert(n.val[k - (i + kl + 1)] != ']');
    }
    crate::sgf::lemma_find_val_end_unique(s, i + kl + 1, i + kl + 1 + vl);
    assert(crate::sgf::find_val_end(s, i + kl + 1) == i + kl + 1 + vl);
    assert(s.subrange(i + kl + 1, i + kl + 1 + vl) == n.val);
    assert(spec_lex(s, i + kl) == seq![
        TokenV::VALSTART,
        TokenV::VAL(n.val),
        TokenV::VALEND,
    ] + spec_lex(s, i + tl));
    assert(seq![n.key] + (seq![TokenV::VALSTART, TokenV::VAL(n.val), TokenV::VALEND] + spec_lex(
        s,
        i + tl,
    )) =~= node_tokens(n) + spec_lex(s, i + tl));
}

/// A serialized run of nodes scans to its tokens.
#[verifier::spinoff_prover]
#[verifier::rlimit(100)]
proof fn lemma_lex_nodes(s: Seq<char>, i: int, ns: Seq<NodeV>)
    requires
        0 <= i,
        i + nodes_text(ns).len() <= s.len(),
        s.subrange(i, i + nodes_text(ns).len() as int) == nodes_text(ns),
        forall|k: int| 0 <= k < ns.len() ==> text_wf_node(#[trigger] ns[k]),
    ensures
        spec_lex(s, i) == nodes_tokens(ns) + spec_lex(s, i + nodes_text(ns).len()),
    decreases ns.len(),
{
    if ns.len() == 0 {
        assert(nodes_tokens(ns) + spec_lex(s, i) =~= spec_lex(s, i));
    } else {
        lemma_nodes_text_cons(ns);
        let n0 = ns[0];
        let p0 = node_piece(n0).len() as int;
        let tl = nodes_text(ns).len() as int;
        assert(nodes_text(ns) == node_piece(n0) + nodes_text(ns.drop_first()));
        lemma_text_split(s, i, node_piece(n0), nodes_text(ns.drop_first()));
        let ioff = if is_move_key(n0.key) { i + 1 } else { i };
        if is_move_key(n0.key) {
            assert(node_piece(n0) == seq![';'] + node_text(n0));
            lemma_text_split(s, i, seq![';'], node_text(n0));
            lemma_text_char(s, i, ';');
            assert(spec_lex(s, i) == seq![TokenV::SPLIT] + spec_lex(s, i + 1));
        } else {
            assert(node_piece(n0) =~= node_text(n0));
        }
        assert(s.subrange(ioff, ioff + node_text(n0).len() as int) == node_text(n0));
        lemma_lex_node_at(s, ioff, n0);
        assert(s.subrange(i + p0, i + tl) == nodes_text(ns.drop_first()));
        lemma_lex_nodes(s, i + p0, ns.drop_first());
        if is_move_key(n0.key) {
            assert(spec_lex(s, i) =~= (seq![TokenV::SPLIT] + node_tokens(n0)) + (nodes_tokens(
                ns.drop_first(),
            ) + spec_lex(s, i + tl)));
            assert((seq![TokenV::SPLIT] + node_tokens(n0)) + (nodes_tokens(ns.drop_first())
                + spec_lex(s, i + tl)) =~= (node_piece_tokens(n0) + nodes_tokens(
                ns.drop_first(),
            )) + spec_lex(s, i + tl));
        } else {
            assert(node_piece_tokens(n0) =~= node_tokens(n0));
            assert(spec_lex(s, i) =~= (node_piece_tokens(n0) + nodes_tokens(ns.drop_first()))
                + spec_lex(s, i + tl));
        }
        assert(nodes_tokens(ns) == node_piece_tokens(n0) + nodes_tokens(ns.drop_first()));
    }
}

/// A serialized tree scans to its tokens.
proof fn lemma_lex_tree(s: Seq<char>, i: int, t: TreeV)
    requires
        0 <= i,
        i + tree_text(t).len() <= s.len(),
        s.subrange(i, i + tree_text(t).len() as int) == tree_text(t),
        text_wf_tree(t),
    ensures
        spec_lex(s, i) == tree_tokens(t) + spec_lex(s, i + tree_text(t).len()),
    decreases t,
{
    let open_text = if t.is_root { seq!['(', ';'] } else { seq!['('] };
    let open_len: int = if t.is_root { 2 } else { 1 };
    let ntl = nodes_text(t.nodes).len() as int;
    let stl = subs_text(t.subs).len() as int;
    let tl = tree_text(t).len() as int;
    assert(tl == open_len + ntl + stl + 1);
    assert(tree_text(t) == ((open_text + nodes_text(t.nodes)) + subs_text(t.subs)) + seq![')']);
    lemma_text_split(s, i, (open_text + nodes_text(t.nodes)) + subs_text(t.subs), seq![')']);
    lemma_text_split(s, i, open_text + nodes_text(t.nodes), subs_text(t.subs));
    lemma_text_split(s, i, open_text, nodes_text(t.nodes));
    if t.is_root {
        assert(open_text == seq!['('] + seq![';']);
        lemma_text_split(s, i, seq!['('], seq![';']);
        lemma_text_char(s, i, '(');
        lemma_text_char(s, i + 1, ';');
        assert(spec_lex(s, i) == seq![TokenV::SEGSTART] + spec_lex(s, i + 1));
        assert(spec_lex(s, i + 1) == seq![TokenV::SPLIT] + spec_lex(s, i + 2));
    } else {
        lemma_text_char(s, i, '(');
        assert(spec_lex(s, i) == seq![TokenV::SEGSTART] + spec_lex(s, i + 1));
    }
    assert(s.subrange(i + open_len, i + open_len + ntl) == nodes_text(t.nodes));
    lemma_lex_nodes(s, i + open_len, t.nodes);
    assert(s.subrange(i + open_len + ntl, i + open_len + ntl + stl) == subs_text(t.subs));
    assert(decreases_to!(t => t.subs));
    lemma_lex_subs(s, i + open_len + ntl, t.subs);
    lemma_text_char(s, i + tl - 1, ')');
    assert(spec_lex(s, i + open_len + ntl + stl) == seq![TokenV::SEGEND] + spec_lex(s, i + tl));
    if t.is_root {
        assert(spec_lex(s, i) =~= ((seq![TokenV::SEGSTART, TokenV::SPLIT] + nodes_tokens(t.nodes))
            + subs_tokens(t.subs) + seq![TokenV::SEGEND]) + spec_lex(s, i + tl));
        assert((seq![TokenV::SEGSTART, TokenV::SPLIT] + nodes_tokens(t.nodes)) + subs_tokens(
            t.subs,
        ) + seq![TokenV::SEGEND] =~= tree_tokens(t));
    } else {
        assert(spec_lex(s, i) =~= ((seq![TokenV::SEGSTART] + nodes_tokens(t.nodes)) + subs_tokens(
            t.subs,
        ) + seq![TokenV::SEGEND]) + spec_lex(s, i + tl));
        assert((seq![TokenV::SEGSTART] + nodes_tokens(t.nodes)) + subs_tokens(t.subs) + seq![
            TokenV::SEGEND,
        ] =~= tree_tokens(t));
    }
}

/// A serialized run of variations scans to its tokens.
proof fn lemma_lex_subs(s: Seq<char>, i: int, ss: Seq<TreeV>)
    requires
        0 <= i,
        i + subs_text(ss).len() <= s.len(),
        s.subrange(i, i + subs_text(ss).len() as int) == subs_text(ss),
        text_wf_subs(ss),
    ensures
        spec_lex(s, i) == subs_tokens(ss) + spec_lex(s, i + subs_text(ss).len()),
    decreases ss,
{
    if ss.len() == 0 {
        assert(subs_tokens(ss) + spec_lex(s, i) =~= spec_lex(s, i));
    } else {
        lemma_subs_text_cons(ss);
        let t0 = ss[0];
        let t0l = tree_text(t0).len() as int;
        let tl = subs_text(ss).len() as int;
        assert(subs_text(ss) == tree_text(t0) + subs_text(ss.drop_first()));
        lemma_text_split(s, i, tree_text(t0), subs_text(ss.drop_first()));
        assert(s.subrange(i, i + t0l) == tree_text(t0));
        assert(decreases_to!(ss => ss[0]));
        lemma_lex_tree(s, i, t0);
        assert(s.subrange(i + t0l, i + tl) == subs_text(ss.drop_first()));
        assert(ss.drop_first() == ss.subrange(1, ss.len() as int));
        assert(decreases_to!(ss => ss.subrange(1, ss.len() as int)));
        lemma_lex_subs(s, i + t0l, ss.drop_first());
        assert(spec_lex(s, i) =~= (tree_tokens(t0) + subs_tokens(ss.drop_first())) + spec_lex(
            s,
            i + tl,
        ));
        assert(subs_tokens(ss) == tree_tokens(t0) + subs_tokens(ss.drop_first()));
    }
}

/// The scanning half of the round trip: the record text a well-formed tree
/// serializes to scans back to exactly the tree's own token sequence, with
/// nothing lost, added or reordered.
pub proof fn lemma_serialized_text_lexes(t: TreeV)
    requires
        text_wf_tree(t),
    ensures
        spec_lex(tree_text(t), 0) == tree_tokens(t),
{
    let s = tree_text(t);
    assert(s.subrange(0, s.len() as int) =~= s);
    lemma_lex_tree(s, 0, t);
    assert(spec_lex(s, s.len() as int) =~= Seq::<TokenV>::empty());
    assert(tree_tokens(t) + Seq::<TokenV>::empty() =~= tree_tokens(t));
}


/// Variation flags as the parser writes them: the first line selected when
/// the segment had none before it, every later one unselected, none a root.
pub open spec fn flags_wf_subs(subs: Seq<TreeV>, first: bool) -> bool
    decreases subs,
    via flags_wf_subs_dec
{
    subs.len() == 0 || (subs[0].selected == first && !subs[0].is_root && flags_wf_tree(subs[0])
        && flags_wf_subs(subs.drop_first(), false))
}

/// A tree whose variation flags are everywhere as the parser writes them.
pub open spec fn flags_wf_tree(t: TreeV) -> bool
    decreases t,
    via flags_wf_tree_dec
{
    flags_wf_subs(t.subs, true)
}

#[via_fn]
proof fn flags_wf_subs_dec(subs: Seq<TreeV>, first: bool) {
    if subs.len() > 0 {
        assert(decreases_to!(subs => subs[0]));
        assert(subs.drop_first() == subs.subrange(1, subs.len() as int));
        assert(decreases_to!(subs => subs.subrange(1, subs.len() as int)));
    }
}

#[via_fn]
proof fn flags_wf_tree_dec(t: TreeV) {
    assert(decreases_to!(t => t.subs));
}

/// A token sequence that matches a concatenation splits into sequences that
/// match the parts.
proof fn lemma_tok_split(s: Seq<TokenV>, i: int, a: Seq<TokenV>, b: Seq<TokenV>)
    requires
        0 <= i,
        i + (a + b).len() <= s.len(),
        s.subrange(i, i + (a + b).len() as int) == a + b,
    ensures
        s.subrange(i, i + a.len() as int) == a,
        s.subrange(i + a.len(), i + (a + b).len() as int) == b,
{
    let tl = (a + b).len() as int;
    let al = a.len() as int;
    assert forall|k: int| 0 <= k < al implies s.subrange(i, i + al)[k] == a[k] by {
        assert(s.subrange(i, i + tl)[k] == (a + b)[k]);
        assert((a + b)[k] == a[k]);
        assert(s.subrange(i, i + tl)[k] == s[i + k]);
        assert(s.subrange(i, i + al)[k] == s[i + k]);
    }
    assert(s.subrange(i, i + al) =~= a);
    assert forall|k: int| 0 <= k < b.len() implies s.subrange(i + al, i + tl)[k] == b[k] by {
        assert(s.subrange(i, i + tl)[al + k] == (a + b)[al + k]);
        assert((a + b)[al + k] == b[k]);
        assert(s.subrange(i, i + tl)[al + k] == s[i + al + k]);
        assert(s.subrange(i + al, i + tl)[k] == s[i + al + k]);
    }
    assert(s.subrange(i + al, i + tl) =~= b);
}

/// Tokens that open and close no segment.
pub open spec fn flat_toks(w: Seq<TokenV>) -> bool {
    forall|k: int| 0 <= k < w.len() ==> !((#[trigger] w[k]) is SEGSTART) && !(w[k] is SEGEND)
}

/// Node tokens open and close no segment.
proof fn lemma_nodes_tokens_flat(ns: Seq<NodeV>)
    requires
        forall|k: int| 0 <= k < ns.len() ==> text_wf_node(#[trigger] ns[k]),
    ensures
        flat_toks(nodes_tokens(ns)),
    decreases ns.len(),
{
    if ns.len() > 0 {
        lemma_nodes_text_cons(ns);
        lemma_nodes_tokens_flat(ns.drop_first());
        let w = nodes_tokens(ns);
        let p = node_piece_tokens(ns[0]);
        assert forall|k: int| 0 <= k < w.len() implies !((#[trigger] w[k]) is SEGSTART) && !(
        w[k] is SEGEND) by {
            assert(w == p + nodes_tokens(ns.drop_first()));
            if k < p.len() {
                assert(w[k] == p[k]);
            } else {
                assert(w[k] == nodes_tokens(ns.drop_first())[k - p.len()]);
            }
        }
    }
}

/// The matching-end scan passes over segment-free tokens unchanged.
proof fn lemma_scan_flat(toks: Seq<TokenV>, j: int, j2: int, end: int, depth: int)
    requires
        0 <= j <= j2 <= end <= toks.len(),
        forall|k: int| j <= k < j2 ==> !((#[trigger] toks[k]) is SEGSTART) && !(toks[k] is SEGEND),
    ensures
        find_seg_end(toks, j, end, depth) == find_seg_end(toks, j2, end, depth),
    decreases j2 - j,
{
    if j < j2 {
        lemma_scan_flat(toks, j + 1, j2, end, depth);
    }
}

/// The matching-end scan passes over a whole serialized tree unchanged.
proof fn lemma_scan_tree(toks: Seq<TokenV>, j: int, end: int, depth: int, t: TreeV)
    requires
        0 <= j,
        j + tree_tokens(t).len() <= end <= toks.len(),
        toks.subrange(j, j + tree_tokens(t).len() as int) == tree_tokens(t),
        depth >= 0,
        text_wf_tree(t),
    ensures
        find_seg_end(toks, j, end, depth) == find_seg_end(toks, j + tree_tokens(t).len(), end, depth),
    decreases t, 1int,
{
    let ntoks = nodes_tokens(t.nodes);
    let stoks = subs_tokens(t.subs);
    let l = tree_tokens(t).len() as int;
    let open_toks = if t.is_root {
        seq![TokenV::SEGSTART, TokenV::SPLIT]
    } else {
        seq![TokenV::SEGSTART]
    };
    let ol = open_toks.len() as int;
    assert(tree_tokens(t) == ((open_toks + ntoks) + stoks) + seq![TokenV::SEGEND]);
    lemma_tok_split(toks, j, (open_toks + ntoks) + stoks, seq![TokenV::SEGEND]);
    lemma_tok_split(toks, j, open_toks + ntoks, stoks);
    lemma_tok_split(toks, j, open_toks, ntoks);
    assert(toks.subrange(j, j + ol)[0] == toks[j]);
    assert(toks[j] is SEGSTART);
    assert(find_seg_end(toks, j, end, depth) == find_seg_end(toks, j + 1, end, depth + 1));
    if t.is_root {
        assert(toks.subrange(j, j + ol)[1] == toks[j + 1]);
        assert(toks[j + 1] is SPLIT);
        assert(find_seg_end(toks, j + 1, end, depth + 1) == find_seg_end(
            toks,
            j + 2,
            end,
            depth + 1,
        ));
    }
    lemma_nodes_tokens_flat(t.nodes);
    assert forall|k: int| j + ol <= k < j + ol + ntoks.len() implies !((#[trigger] toks[k])
        is SEGSTART) && !(toks[k] is SEGEND) by {
        assert(toks.subrange(j + ol, j + ol + ntoks.len() as int)[k - (j + ol)] == toks[k]);
    }
    lemma_scan_flat(toks, j + ol, j + ol + ntoks.len() as int, end, depth + 1);
    assert(decreases_to!(t => t.subs));
    lemma_scan_subs(toks, j + ol + ntoks.len(), end, depth + 1, t.subs);
    assert(toks.subrange(j + l - 1, j + l)[0] == toks[j + l - 1]);
    assert(toks[j + l - 1] is SEGEND);
    assert(find_seg_end(toks, j + l - 1, end, depth + 1) == find_seg_end(toks, j + l, end, depth));
}

/// The matching-end scan passes over serialized variations unchanged.
proof fn lemma_scan_subs(toks: Seq<TokenV>, j: int, end: int, depth: int, ss: Seq<TreeV>)
    requires
        0 <= j,
        j + subs_tokens(ss).len() <= end <= toks.len(),
        toks.subrange(j, j + subs_tokens(ss).len() as int) == subs_tokens(ss),
        depth >= 0,
        text_wf_subs(ss),
    ensures
        find_seg_end(toks, j, end, depth) == find_seg_end(toks, j + subs_tokens(ss).len(), end, depth),
    decreases ss, 0int,
{
    if ss.len() > 0 {
        lemma_subs_text_cons(ss);
        assert(subs_tokens(ss) == tree_tokens(ss[0]) + subs_tokens(ss.drop_first()));
        lemma_tok_split(toks, j, tree_tokens(ss[0]), subs_tokens(ss.drop_first()));
        assert(decreases_to!(ss => ss[0]));
        lemma_scan_tree(toks, j, end, depth, ss[0]);
        assert(ss.drop_first() == ss.subrange(1, ss.len() as int));
        assert(decreases_to!(ss => ss.subrange(1, ss.len() as int)));
        lemma_scan_subs(toks, j + tree_tokens(ss[0]).len(), end, depth, ss.drop_first());
    }
}

/// A node's four tokens parse back to the node.
proof fn lemma_parse_node_tokens(toks: Seq<TokenV>, idx: int, end: int, n: NodeV)
    requires
        0 <= idx,
        idx + 4 <= end <= toks.len(),
        toks.subrange(idx, idx + 4) == node_tokens(n),
        text_wf_node(n),
    ensures
        parse_node_at(toks, idx, end) == Some(n),
{
    assert(toks.subrange(idx, idx + 4)[0] == toks[idx]);
    assert(toks.subrange(idx, idx + 4)[1] == toks[idx + 1]);
    assert(toks.subrange(idx, idx + 4)[2] == toks[idx + 2]);
    assert(toks.subrange(idx, idx + 4)[3] == toks[idx + 3]);
    assert(toks[idx] == n.key);
    assert(toks[idx + 1] is VALSTART);
    assert(toks[idx + 2] == TokenV::VAL(n.val));
    assert(toks[idx + 3] is VALEND);
    assert(parse_node_at(toks, idx, end) == Some(NodeV { key: n.key, val: n.val }));
    assert(NodeV { key: n.key, val: n.val } =~= n);
}

/// The interior tokens of a segment parse back to its nodes and variations.
proof fn lemma_parse_items_run(
    toks: Seq<TokenV>,
    i: int,
    end: int,
    hs: bool,
    ns: Seq<NodeV>,
    ss: Seq<TreeV>,
)
    requires
        0 <= i <= end <= toks.len(),
        end == i + nodes_tokens(ns).len() + subs_tokens(ss).len(),
        toks.subrange(i, end) == nodes_tokens(ns) + subs_tokens(ss),
        forall|k: int| 0 <= k < ns.len() ==> text_wf_node(#[trigger] ns[k]),
        text_wf_subs(ss),
        flags_wf_subs(ss, !hs),
    ensures
        parse_items(toks, i, end, hs) == (ns, ss),
    decreases end - i,
{
    let ntoks = nodes_tokens(ns);
    let stoks = subs_tokens(ss);
    lemma_tok_split(toks, i, ntoks, stoks);
    if ns.len() > 0 {
        lemma_nodes_text_cons(ns);
        let n0 = ns[0];
        let p = node_piece_tokens(n0);
        assert(ntoks == p + nodes_tokens(ns.drop_first()));
        lemma_tok_split(toks, i, p, nodes_tokens(ns.drop_first()));
        if is_move_key(n0.key) {
            assert(p == seq![TokenV::SPLIT] + node_tokens(n0));
            lemma_tok_split(toks, i, seq![TokenV::SPLIT], node_tokens(n0));
            assert(toks.subrange(i, i + 1)[0] == toks[i]);
            assert(toks[i] is SPLIT);
            lemma_parse_node_tokens(toks, i + 1, end, n0);
            assert(toks.subrange(i + 1, i + 5)[0] == toks[i + 1]);
            assert(toks[i + 1] == n0.key);
            assert(is_prop_key(toks[i + 1]));
            assert(end - i >= 5);
            let rest_text = nodes_tokens(ns.drop_first()) + stoks;
            assert(toks.subrange(i + 5, end) =~= rest_text) by {
                assert forall|k: int| 0 <= k < rest_text.len() implies toks.subrange(
                    i + 5,
                    end,
                )[k] == rest_text[k] by {
                    assert(toks.subrange(i, end)[5 + k] == (ntoks + stoks)[5 + k]);
                    assert(toks.subrange(i, end)[5 + k] == toks[i + 5 + k]);
                    assert(toks.subrange(i + 5, end)[k] == toks[i + 5 + k]);
                    if 5 + k < ntoks.len() {
                        assert((ntoks + stoks)[5 + k] == ntoks[5 + k]);
                        assert(ntoks[5 + k] == nodes_tokens(ns.drop_first())[k]);
                        assert(rest_text[k] == nodes_tokens(ns.drop_first())[k]);
                    } else {
                        assert((ntoks + stoks)[5 + k] == stoks[5 + k - ntoks.len()]);
                        assert(rest_text[k] == stoks[k - nodes_tokens(ns.drop_first()).len()]);
                    }
                }
            }
            lemma_parse_items_run(toks, i + 5, end, hs, ns.drop_first(), ss);
            assert(parse_items(toks, i, end, hs) == (
                seq![n0] + ns.drop_first(),
                ss,
            ));
            assert(seq![n0] + ns.drop_first() =~= ns);
        } else {
            assert(p =~= node_tokens(n0));
            lemma_parse_node_tokens(toks, i, end, n0);
            assert(toks.subrange(i, i + 4)[0] == toks[i]);
            assert(toks[i] == n0.key);
            assert(is_prop_key(toks[i]));
            assert(!(toks[i] is SEGSTART));
            assert(!(toks[i] is SPLIT));
            assert(end - i >= 4);
            let rest_text = nodes_tokens(ns.drop_first()) + stoks;
            assert(toks.subrange(i + 4, end) =~= rest_text) by {
                assert forall|k: int| 0 <= k < rest_text.len() implies toks.subrange(
                    i + 4,
                    end,
                )[k] == rest_text[k] by {
                    assert(toks.subrange(i, end)[4 + k] == (ntoks + stoks)[4 + k]);
                    assert(toks.subrange(i, end)[4 + k] == toks[i + 4 + k]);
                    assert(toks.subrange(i + 4, end)[k] == toks[i + 4 + k]);
                    if 4 + k < ntoks.len() {
                        assert((ntoks + stoks)[4 + k] == ntoks[4 + k]);
                        assert(ntoks[4 + k] == nodes_tokens(ns.drop_first())[k]);
                        assert(rest_text[k] == nodes_tokens(ns.drop_first())[k]);
                    } else {
                        assert((ntoks + stoks)[4 + k] == stoks[4 + k - ntoks.len()]);
                        assert(rest_text[k] == stoks[k - nodes_tokens(ns.drop_first()).len()]);
                    }
                }
            }
            lemma_parse_items_run(toks, i + 4, end, hs, ns.drop_first(), ss);
            assert(parse_items(toks, i, end, hs) == (
                seq![n0] + ns.drop_first(),
                ss,
            ));
            assert(seq![n0] + ns.drop_first() =~= ns);
        }
    } else if ss.len() > 0 {
        assert(ntoks =~= Seq::<TokenV>::empty());
        lemma_subs_text_cons(ss);
        let t0 = ss[0];
        let l0 = tree_tokens(t0).len() as int;
        assert(stoks == tree_tokens(t0) + subs_tokens(ss.drop_first()));
        assert(toks.subrange(i, end) =~= stoks);
        lemma_tok_split(toks, i, tree_tokens(t0), subs_tokens(ss.drop_first()));
        assert(tree_tokens(t0) == ((seq![TokenV::SEGSTART] + nodes_tokens(t0.nodes))
            + subs_tokens(t0.subs)) + seq![TokenV::SEGEND]);
        lemma_tok_split(
            toks,
            i,
            (seq![TokenV::SEGSTART] + nodes_tokens(t0.nodes)) + subs_tokens(t0.subs),
            seq![TokenV::SEGEND],
        );
        lemma_tok_split(toks, i, seq![TokenV::SEGSTART] + nodes_tokens(t0.nodes), subs_tokens(t0.subs));
        lemma_tok_split(toks, i, seq![TokenV::SEGSTART], nodes_tokens(t0.nodes));
        assert(toks.subrange(i, i + 1)[0] == toks[i]);
        assert(toks[i] is SEGSTART);
        // the scan finds the matching segment end at the sub-tree's last token
        assert(text_wf_tree(t0));
        assert(flags_wf_tree(t0)) by {
            assert(flags_wf_subs(ss, !hs));
        }
        lemma_nodes_tokens_flat(t0.nodes);
        assert forall|k: int| i + 1 <= k < i + 1 + nodes_tokens(t0.nodes).len() implies !((
        #[trigger] toks[k]) is SEGSTART) && !(toks[k] is SEGEND) by {
            assert(toks.subrange(i + 1, i + 1 + nodes_tokens(t0.nodes).len() as int)[k - (i + 1)]
                == toks[k]);
        }
        lemma_scan_flat(toks, i + 1, i + 1 + nodes_tokens(t0.nodes).len() as int, end, 0);
        assert(text_wf_subs(t0.subs));
        lemma_scan_subs(toks, i + 1 + nodes_tokens(t0.nodes).len(), end, 0, t0.subs);
        assert(toks.subrange(i + l0 - 1, i + l0)[0] == toks[i + l0 - 1]);
        assert(toks[i + l0 - 1] is SEGEND);
        assert(find_seg_end(toks, i + l0 - 1, end, 0) == i + l0 - 1);
        assert(find_seg_end(toks, i + 1, end, 0) == i + l0 - 1);
        let j = i + l0 - 1;
        assert(j < end);
        lemma_parse_tree_tokens(toks, i, j, t0);
        assert(parse_tree(toks, i, j, !hs, false) == t0);
        lemma_parse_items_run(toks, j + 1, end, true, Seq::empty(), ss.drop_first());
        assert(parse_items(toks, i, end, hs) == (
            Seq::<NodeV>::empty(),
            seq![t0] + ss.drop_first(),
        ));
        assert(seq![t0] + ss.drop_first() =~= ss);
    } else {
        assert(i == end);
    }
}

/// Every variation the parser wrote is a non-root.
proof fn lemma_flags_not_root(ss: Seq<TreeV>, first: bool, k: int)
    requires
        flags_wf_subs(ss, first),
        0 <= k < ss.len(),
    ensures
        !ss[k].is_root,
        flags_wf_tree(ss[k]),
    decreases k,
{
    if k > 0 {
        lemma_flags_not_root(ss.drop_first(), false, k - 1);
        assert(ss.drop_first()[k - 1] == ss[k]);
    }
}

/// A serialized tree's tokens parse back to the tree itself.
proof fn lemma_parse_tree_tokens(toks: Seq<TokenV>, p: int, q: int, t: TreeV)
    requires
        0 <= p,
        q == p + tree_tokens(t).len() - 1,
        q < toks.len(),
        toks.subrange(p, q + 1) == tree_tokens(t),
        text_wf_tree(t),
        flags_wf_tree(t),
    ensures
        parse_tree(toks, p, q, t.selected, t.is_root) == t,
    decreases q - p,
{
    let ntoks = nodes_tokens(t.nodes);
    let stoks = subs_tokens(t.subs);
    let open_toks = if t.is_root {
        seq![TokenV::SEGSTART, TokenV::SPLIT]
    } else {
        seq![TokenV::SEGSTART]
    };
    let ol = open_toks.len() as int;
    assert(tree_tokens(t) == ((open_toks + ntoks) + stoks) + seq![TokenV::SEGEND]);
    lemma_tok_split(toks, p, (open_toks + ntoks) + stoks, seq![TokenV::SEGEND]);
    lemma_tok_split(toks, p, open_toks + ntoks, stoks);
    lemma_tok_split(toks, p, open_toks, ntoks);
    let interior = ntoks + stoks;
    assert(toks.subrange(p + ol, q) =~= interior) by {
        assert forall|k: int| 0 <= k < interior.len() implies toks.subrange(p + ol, q)[k]
            == interior[k] by {
            assert(toks.subrange(p + ol, p + ol + ntoks.len() as int) == ntoks);
            assert(toks.subrange(p + ol + ntoks.len(), q) == stoks);
            if k < ntoks.len() {
                assert(toks.subrange(p + ol, p + ol + ntoks.len() as int)[k] == ntoks[k]);
                assert(toks.subrange(p + ol, p + ol + ntoks.len() as int)[k] == toks[p + ol + k]);
                assert(toks.subrange(p + ol, q)[k] == toks[p + ol + k]);
                assert(interior[k] == ntoks[k]);
            } else {
                assert(toks.subrange(p + ol + ntoks.len(), q)[k - ntoks.len()] == stoks[k
                    - ntoks.len()]);
                assert(toks.subrange(p + ol + ntoks.len(), q)[k - ntoks.len()] == toks[p + ol + k]);
                assert(toks.subrange(p + ol, q)[k] == toks[p + ol + k]);
                assert(interior[k] == stoks[k - ntoks.len()]);
            }
        }
    }
    if !t.is_root {
        lemma_parse_items_run(toks, p + 1, q, false, t.nodes, t.subs);
        assert(parse_tree(toks, p, q, t.selected, t.is_root) =~= t);
    } else {
        assert(toks.subrange(p, p + 2)[1] == toks[p + 1]);
        assert(toks[p + 1] is SPLIT);
        if t.nodes.len() > 0 && !is_move_key(t.nodes[0].key) {
            // the parser reads the root's node split together with the
            // first header node
            lemma_nodes_text_cons(t.nodes);
            let n0 = t.nodes[0];
            assert(toks.subrange(p + 2, q) == node_tokens(n0) + (nodes_tokens(
                t.nodes.drop_first(),
            ) + stoks)) by {
                assert(node_piece_tokens(n0) =~= node_tokens(n0));
                assert(interior =~= node_tokens(n0) + (nodes_tokens(t.nodes.drop_first())
                    + stoks));
                assert(toks.subrange(p + 2, q) == interior);
            }
            lemma_tok_split(toks, p + 2, node_tokens(n0), nodes_tokens(t.nodes.drop_first()) + stoks,
            );
            lemma_parse_node_tokens(toks, p + 2, q, n0);
            assert(toks.subrange(p + 2, p + 6)[0] == toks[p + 2]);
            assert(toks[p + 2] == n0.key);
            assert(is_prop_key(toks[p + 2]));
            assert(q - (p + 1) >= 5);
            lemma_parse_items_run(toks, p + 6, q, false, t.nodes.drop_first(), t.subs);
            assert(parse_items(toks, p + 1, q, false) == (
                seq![n0] + t.nodes.drop_first(),
                t.subs,
            ));
            assert(seq![n0] + t.nodes.drop_first() =~= t.nodes);
            assert(parse_tree(toks, p, q, t.selected, t.is_root) =~= t);
        } else {
            // the root's node split leads a move node's own split, a
            // variation or nothing: the parser passes it over
            if t.nodes.len() > 0 {
                lemma_nodes_text_cons(t.nodes);
                assert(node_piece_tokens(t.nodes[0])[0] is SPLIT);
                assert(interior[0] is SPLIT);
            }
            assert(p + 2 <= q);
            assert(!(p + 2 < q && is_prop_key(toks[p + 2]))) by {
                if p + 2 < q {
                    assert(toks.subrange(p + ol, q)[0] == toks[p + 2]);
                    if t.nodes.len() > 0 {
                        assert(interior[0] is SPLIT);
                        assert(toks[p + 2] is SPLIT);
                    } else if t.subs.len() > 0 {
                        lemma_subs_text_cons(t.subs);
                        assert(subs_tokens(t.subs)[0] == tree_tokens(t.subs[0])[0]);
                        assert(tree_tokens(t.subs[0])[0] is SEGSTART) by {
                            lemma_flags_not_root(t.subs, true, 0);
                            assert(tree_tokens(t.subs[0]) == ((seq![TokenV::SEGSTART]
                                + nodes_tokens(t.subs[0].nodes)) + subs_tokens(t.subs[0].subs))
                                + seq![TokenV::SEGEND]);
                        }
                        assert(interior[0] is SEGSTART);
                        assert(toks[p + 2] is SEGSTART);
                    } else {
                        assert(interior.len() == 0);
                        assert(q == p + 2);
                    }
                }
            }
            assert(parse_items(toks, p + 1, q, false) == parse_items(toks, p + 2, q, false));
            lemma_parse_items_run(toks, p + 2, q, false, t.nodes, t.subs);
            assert(parse_tree(toks, p, q, t.selected, t.is_root) =~= t);
        }
    }
}

/// The full round trip: a well-formed tree's serialized record text scans
/// back to its token sequence, and those tokens parse back to the tree
/// itself, selection flags included.
pub proof fn lemma_round_trip(t: TreeV)
    requires
        text_wf_tree(t),
        flags_wf_tree(t),
    ensures
        spec_lex(tree_text(t), 0) == tree_tokens(t),
        parse_tree(
            tree_tokens(t),
            0,
            tree_tokens(t).len() - 1,
            t.selected,
            t.is_root,
        ) == t,
{
    lemma_serialized_text_lexes(t);
    let toks = tree_tokens(t);
    assert(toks.subrange(0, toks.len() as int) =~= toks);
    lemma_parse_tree_tokens(toks, 0, toks.len() - 1, t);
}


/// Tokens whose raw values are all free of the value terminator.
pub open spec fn clean_toks(w: Seq<TokenV>) -> bool {
    forall|k: int|
        0 <= k < w.len() ==> match #[trigger] w[k] {
            TokenV::VAL(v) => val_clean(v),
            _ => true,
        }
}

/// The scanner never puts a value terminator inside a raw value.
proof fn lemma_lex_clean(s: Seq<char>, i: int)
    requires
        0 <= i <= s.len(),
    ensures
        clean_toks(spec_lex(s, i)),
    decreases s.len() - i,
{
    if i >= s.len() {
    } else if s[i] == '(' || s[i] == ')' || s[i] == ';' {
        lemma_lex_clean(s, i + 1);
        let rest = spec_lex(s, i + 1);
        assert forall|k: int|
            0 <= k < spec_lex(s, i).len() implies match #[trigger] spec_lex(s, i)[k] {
            TokenV::VAL(v) => val_clean(v),
            _ => true,
        } by {
            if k > 0 {
                assert(spec_lex(s, i)[k] == rest[k - 1]);
            }
        }
    } else if s[i] == '[' {
        let j = crate::sgf::find_val_end(s, i + 1);
        crate::sgf::lemma_find_val_end(s, i + 1);
        let next = if j < s.len() { j + 1 } else { s.len() as int };
        lemma_lex_clean(s, next);
        let rest = spec_lex(s, next);
        assert(val_clean(s.subrange(i + 1, j))) by {
            assert forall|k: int| 0 <= k < s.subrange(i + 1, j).len() implies #[trigger] s.subrange(
                i + 1,
                j,
            )[k] != ']' by {
                assert(s.subrange(i + 1, j)[k] == s[i + 1 + k]);
            }
        }
        assert forall|k: int|
            0 <= k < spec_lex(s, i).len() implies match #[trigger] spec_lex(s, i)[k] {
            TokenV::VAL(v) => val_clean(v),
            _ => true,
        } by {
            if k >= 3 {
                assert(spec_lex(s, i)[k] == rest[k - 3]);
            } else if k == 1 {
                assert(spec_lex(s, i)[1] == TokenV::VAL(s.subrange(i + 1, j)));
            }
        }
    } else {
        let j = crate::sgf::find_run_end(s, i + 1);
        crate::sgf::lemma_find_run_end(s, i + 1);
        lemma_lex_clean(s, j);
        let rest = spec_lex(s, j);
        match crate::sgf::key_of_chars(s.subrange(i, j)) {
            Some(t) => {
                assert(!(t is VAL)) by {
                    crate::sgf::lemma_key_of_chars_prop(s.subrange(i, j));
                }
                assert forall|k: int|
                    0 <= k < spec_lex(s, i).len() implies match #[trigger] spec_lex(s, i)[k] {
                    TokenV::VAL(v) => val_clean(v),
                    _ => true,
                } by {
                    if k > 0 {
                        assert(spec_lex(s, i)[k] == rest[k - 1]);
                    }
                }
            },
            None => {},
        }
    }
}

/// What the parser builds from clean tokens is well-formed record text, and
/// its selection flags are exactly the parser's: the first variation of
/// every segment selected, every other unselected, no variation a root.
proof fn lemma_parse_wf(toks: Seq<TokenV>, i: int, end: int, hs: bool)
    requires
        0 <= i <= end <= toks.len(),
        clean_toks(toks),
    ensures
        forall|k: int| 0 <= k < parse_items(toks, i, end, hs).0.len() ==> text_wf_node(
            #[trigger] parse_items(toks, i, end, hs).0[k],
        ),
        text_wf_subs(parse_items(toks, i, end, hs).1),
        flags_wf_subs(parse_items(toks, i, end, hs).1, !hs),
    decreases end - i,
{
    if i >= end {
    } else if toks[i] is SEGSTART {
        let j = find_seg_end(toks, i + 1, end, 0);
        lemma_find_seg_end(toks, i + 1, end, 0);
        if j < end {
            let sub = parse_tree(toks, i, j, !hs, false);
            lemma_parse_wf(toks, i + 1, j, false);
            assert(text_wf_tree(sub));
            assert(flags_wf_tree(sub));
            lemma_parse_wf(toks, j + 1, end, true);
            let rest = parse_items(toks, j + 1, end, true);
            assert(parse_items(toks, i, end, hs).1 == seq![sub] + rest.1);
            assert((seq![sub] + rest.1).drop_first() =~= rest.1);
            assert(text_wf_subs(seq![sub] + rest.1));
            assert(flags_wf_subs(seq![sub] + rest.1, !hs));
        } else {
            lemma_parse_wf(toks, i + 1, end, hs);
        }
    } else if toks[i] is SPLIT && i + 1 < end && is_prop_key(toks[i + 1]) {
        let ni = if end - i >= 5 { i + 5 } else { end };
        lemma_parse_wf(toks, ni, end, hs);
        let rest = parse_items(toks, ni, end, hs);
        match parse_node_at(toks, i + 1, end) {
            Some(n) => {
                assert(text_wf_node(n)) by {
                    assert(match toks[i + 3] {
                        TokenV::VAL(v) => val_clean(v),
                        _ => true,
                    });
                }
                assert forall|k: int|
                    0 <= k < parse_items(toks, i, end, hs).0.len() implies text_wf_node(
                    #[trigger] parse_items(toks, i, end, hs).0[k],
                ) by {
                    if k > 0 {
                        assert(parse_items(toks, i, end, hs).0[k] == rest.0[k - 1]);
                    }
                }
            },
            None => {},
        }
    } else if is_prop_key(toks[i]) {
        let ni = if end - i >= 4 { i + 4 } else { end };
        lemma_parse_wf(toks, ni, end, hs);
        let rest = parse_items(toks, ni, end, hs);
        match parse_node_at(toks, i, end) {
            Some(n) => {
                assert(text_wf_node(n)) by {
                    assert(match toks[i + 2] {
                        TokenV::VAL(v) => val_clean(v),
                        _ => true,
                    });
                }
                assert forall|k: int|
                    0 <= k < parse_items(toks, i, end, hs).0.len() implies text_wf_node(
                    #[trigger] parse_items(toks, i, end, hs).0[k],
                ) by {
                    if k > 0 {
                        assert(parse_items(toks, i, end, hs).0[k] == rest.0[k - 1]);
                    }
                }
            },
            None => {},
        }
    } else {
        lemma_parse_wf(toks, i + 1, end, hs);
    }
}

/// The round trip of the record text itself: scan any text, build the tree
/// of its outermost segment, and serialize it back; the serialized text
/// scans to exactly the tree's own tokens, and they rebuild that tree
/// exactly. Re-serializing therefore never drifts: the second tree equals
/// the first, structure and selection flags alike.
pub proof fn lemma_parse_round_trip(text: Seq<char>)
    requires
        spec_lex(text, 0).len() >= 2,
    ensures
        ({
            let toks = spec_lex(text, 0);
            let t0 = parse_tree(toks, 0, toks.len() - 1, true, true);
            &&& spec_lex(tree_text(t0), 0) == tree_tokens(t0)
            &&& parse_tree(
                tree_tokens(t0),
                0,
                tree_tokens(t0).len() - 1,
                t0.selected,
                t0.is_root,
            ) == t0
        }),
{
    let toks = spec_lex(text, 0);
    let t0 = parse_tree(toks, 0, toks.len() - 1, true, true);
    lemma_lex_clean(text, 0);
    lemma_parse_wf(toks, 1, toks.len() - 1, false);
    assert(text_wf_tree(t0));
    assert(flags_wf_tree(t0));
    lemma_round_trip(t0);
}

} // verus!
