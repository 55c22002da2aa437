//! Answers: contradictions, stale premises, follow-up questions and the text of an answer.
use vstd::prelude::*;

use crate::chars::{
    decimal, decimal_text, digit_char, is_text_less, join, join_texts, lemma_text_less_irreflexive,
    lemma_text_less_total, lemma_text_less_transitive, list_contains, same_text, text_less, texts,
};
use crate::digits::{fraction_in_24_digits, in_24_digits};
use crate::graph::{answers, node_in};
use crate::model::{
    Contradiction, ContradictionModel, Evidence, EvidenceModel, MemoryEdgeKind, MemoryNodeKind,
    MemoryQuery, QueryModel, StaleAssumption, StaleModel,
};
use crate::order::{lemma_views_push, ranked, sort_ranked, views, Ranking};
use crate::rows::{family_key, EdgeModel, MemoryEdge, MemoryNode, NodeModel};
use crate::store::{distinct_nodes, WithId};
use crate::table::{find_row, has_row, select, some_row, Row, Rule};
use crate::text::{
    at_most, concise, concise_form, overlap_score, overlap_share, top_terms, top_terms_of,
};

verus! {

impl Row for Evidence {
    fn twin(&self) -> (r: Self) {
        self.clone()
    }
}

/// The identifiers of some evidence.
pub open spec fn evidence_ids(evidence: Seq<EvidenceModel>) -> Seq<Seq<char>> {
    Seq::new(evidence.len(), |i: int| evidence[i].node_id)
}

// ---------------------------------------------------------------------------
// Contradictions
// ---------------------------------------------------------------------------
/// How a contradiction is put in words.
pub open spec fn conflict_words(edge: EdgeModel, history: Seq<NodeModel>) -> Seq<char> {
    match (node_in(history, edge.from_node_id), node_in(history, edge.to_node_id)) {
        (Some(newer), Some(older)) => concise_form(newer.text, 120) + " conflicts with "@
            + concise_form(older.text, 120),
        _ => edge.from_node_id + " conflicts with "@ + edge.to_node_id,
    }
}

/// The revisions among some edges that touch the evidence.
pub open spec fn conflicts(
    edges: Seq<EdgeModel>,
    ids: Seq<Seq<char>>,
    history: Seq<NodeModel>,
) -> Seq<ContradictionModel>
    decreases edges.len(),
{
    if edges.len() == 0 {
        Seq::empty()
    } else {
        let front = conflicts(edges.drop_last(), ids, history);
        let edge = edges.last();
        if edge.revises() && (ids.contains(edge.from_node_id) || ids.contains(edge.to_node_id)) {
            front.push(
                ContradictionModel {
                    older_node_id: edge.to_node_id,
                    newer_node_id: edge.from_node_id,
                    summary: conflict_words(edge, history),
                },
            )
        } else {
            front
        }
    }
}

/// Contradictions in the order of their older nodes.
pub struct ByOlder;

impl Ranking<Contradiction> for ByOlder {
    open spec fn before(a: ContradictionModel, b: ContradictionModel) -> bool {
        text_less(a.older_node_id, b.older_node_id)
    }

    fn precedes(a: &Contradiction, b: &Contradiction) -> (r: bool) {
        is_text_less(a.older_node_id.as_str(), b.older_node_id.as_str())
    }

    proof fn lawful() {
        assert forall|a: ContradictionModel, b: ContradictionModel|
            !(#[trigger] Self::before(a, b) && #[trigger] Self::before(b, a)) by {
            if Self::before(a, b) && Self::before(b, a) {
                lemma_text_less_transitive(a.older_node_id, b.older_node_id, a.older_node_id);
                lemma_text_less_irreflexive(a.older_node_id);
            }
        }
        assert forall|a: ContradictionModel, b: ContradictionModel, c: ContradictionModel|
            !#[trigger] Self::before(a, b) && !#[trigger] Self::before(
                b,
                c,
            ) implies !Self::before(a, c) by {
            if Self::before(a, c) {
                lemma_text_less_total(a.older_node_id, b.older_node_id);
                lemma_text_less_total(b.older_node_id, c.older_node_id);
                if text_less(b.older_node_id, a.older_node_id) {
                    lemma_text_less_transitive(b.older_node_id, a.older_node_id, c.older_node_id);
                }
                if text_less(c.older_node_id, b.older_node_id) {
                    lemma_text_less_transitive(a.older_node_id, c.older_node_id, b.older_node_id);
                }
            }
        }
    }
}

/// A list without the entries whose nodes are those of the entry kept before them.
pub open spec fn without_repeats(list: Seq<ContradictionModel>) -> Seq<ContradictionModel>
    decreases list.len(),
{
    if list.len() == 0 {
        Seq::empty()
    } else {
        let front = without_repeats(list.drop_last());
        let last = list.last();
        if front.len() > 0 && front.last().older_node_id == last.older_node_id
            && front.last().newer_node_id == last.newer_node_id {
            front
        } else {
            front.push(last)
        }
    }
}

/// The contradictions that an answer shows.
pub open spec fn shown_contradictions(
    edges: Seq<EdgeModel>,
    ids: Seq<Seq<char>>,
    history: Seq<NodeModel>,
) -> Seq<ContradictionModel> {
    without_repeats(ranked::<Contradiction, ByOlder>(conflicts(edges, ids, history)))
}

fn words_of_conflict(edge: &MemoryEdge, history: &Vec<MemoryNode>) -> (r: String)
    ensures
        r@ == conflict_words(edge@, views(history@)),
{
    match (
        find_row(history, &WithId { id: edge.from_node_id.as_str() }),
        find_row(history, &WithId { id: edge.to_node_id.as_str() }),
    ) {
        (Some(newer), Some(older)) => {
            let mut words = concise(history[newer].text.as_str(), 120);
            words.append(" conflicts with ");
            let rest = concise(history[older].text.as_str(), 120);
            words.append(rest.as_str());
            words
        },
        _ => {
            let mut words = edge.from_node_id.clone();
            words.append(" conflicts with ");
            words.append(edge.to_node_id.as_str());
            words
        },
    }
}

/// The contradictions that an answer shows.
pub fn contradictions_for(edges: &Vec<MemoryEdge>, ids: &Vec<String>, history: &Vec<MemoryNode>) -> (r:
    Vec<Contradiction>)
    ensures
        views(r@) == shown_contradictions(views(edges@), texts(ids@), views(history@)),
{
    let ghost all = views(edges@);
    let mut found: Vec<Contradiction> = Vec::new();
    let mut i: usize = 0;
    proof {
        assert(all.take(0) =~= Seq::empty());
        assert(views(found@) =~= Seq::empty());
    }
    while i < edges.len()
        invariant
            i <= edges@.len(),
            all == views(edges@),
            views(found@) == conflicts(all.take(i as int), texts(ids@), views(history@)),
        decreases edges.len() - i,
    {
        proof {
            assert(all.take(i as int + 1).drop_last() =~= all.take(i as int));
            assert(all.take(i as int + 1).last() == edges@[i as int]@);
        }
        let edge = &edges[i];
        if (edge.kind == MemoryEdgeKind::Contradicts || edge.kind == MemoryEdgeKind::Supersedes)
            && (list_contains(ids, edge.from_node_id.as_str()) || list_contains(
            ids,
            edge.to_node_id.as_str(),
        )) {
            let ghost before = found@;
            let entry = Contradiction {
                older_node_id: edge.to_node_id.clone(),
                newer_node_id: edge.from_node_id.clone(),
                summary: words_of_conflict(edge, history),
            };
            found.push(entry);
            proof {
                lemma_views_push(before, entry);
            }
        }
        i += 1;
    }
    proof {
        assert(all.take(i as int) =~= all);
    }
    let sorted = sort_ranked::<Contradiction, ByOlder>(found);
    let ghost list = views(sorted@);
    let mut out: Vec<Contradiction> = Vec::new();
    let mut k: usize = 0;
    proof {
        assert(list.take(0) =~= Seq::empty());
        assert(views(out@) =~= Seq::empty());
    }
    while k < sorted.len()
        invariant
            k <= sorted@.len(),
            list == views(sorted@),
            views(out@) == without_repeats(list.take(k as int)),
        decreases sorted.len() - k,
    {
        proof {
            assert(list.take(k as int + 1).drop_last() =~= list.take(k as int));
            assert(list.take(k as int + 1).last() == sorted@[k as int]@);
            if out@.len() > 0 {
                assert(views(out@).last() == out@[out@.len() - 1]@);
            }
        }
        let last: usize = out.len();
        let repeated = last > 0 && same_text(
            out[last - 1].older_node_id.as_str(),
            sorted[k].older_node_id.as_str(),
        ) && same_text(
            out[last - 1].newer_node_id.as_str(),
            sorted[k].newer_node_id.as_str(),
        );
        if !repeated {
            let ghost before = out@;
            let entry = Contradiction {
                older_node_id: sorted[k].older_node_id.clone(),
                newer_node_id: sorted[k].newer_node_id.clone(),
                summary: sorted[k].summary.clone(),
            };
            out.push(entry);
            proof {
                lemma_views_push(before, entry);
                assert(entry@ == sorted@[k as int]@);
            }
        }
        k += 1;
    }
    proof {
        assert(list.take(k as int) =~= list);
    }
    out
}

// ---------------------------------------------------------------------------
// Stale premises
// ---------------------------------------------------------------------------
/// Versions of the same memory that hold at a time and began when a node was closed or later.
pub open spec fn follows(node: NodeModel, closed: i64, at: i64) -> spec_fn(NodeModel) -> bool {
    |other: NodeModel|
        other.id != node.id && other.tenant_id == node.tenant_id && other.project_id
            == node.project_id && other.environment_id == node.environment_id && other.kind
            == node.kind && family_key(other.canonical_key) == family_key(node.canonical_key)
            && other.valid_from_unix_ms >= closed && other.active_at(at)
}

pub struct Follows<'a> {
    pub node: &'a MemoryNode,
    pub closed: i64,
    pub at: i64,
}

impl<'a> Rule<MemoryNode> for Follows<'a> {
    open spec fn test(&self) -> spec_fn(NodeModel) -> bool {
        follows(self.node@, self.closed, self.at)
    }

    fn admits(&self, row: &MemoryNode) -> (r: bool) {
        if row.kind != self.node.kind || row.valid_from_unix_ms < self.closed || !row.active_at(
            self.at,
        ) {
            return false;
        }
        if same_text(row.id.as_str(), self.node.id.as_str()) || !same_text(
            row.tenant_id.as_str(),
            self.node.tenant_id.as_str(),
        ) || !same_text(row.project_id.as_str(), self.node.project_id.as_str())
            || !crate::chars::same_opt_text(&row.environment_id, &self.node.environment_id) {
            return false;
        }
        let here = row.family_canonical_key();
        let there = self.node.family_canonical_key();
        same_text(here.as_str(), there.as_str())
    }
}

/// A later version of the node's memory holds at a time.
pub open spec fn has_successor(history: Seq<NodeModel>, node: NodeModel, at: i64) -> bool {
    match node.valid_to_unix_ms {
        Some(closed) => some_row(history, follows(node, closed, at)),
        None => false,
    }
}

pub fn has_visible_family_successor(history: &Vec<MemoryNode>, node: &MemoryNode, at: i64) -> (r:
    bool)
    ensures
        r == has_successor(views(history@), node@, at),
{
    match node.valid_to_unix_ms {
        Some(closed) => has_row(history, &Follows { node, closed, at }),
        None => false,
    }
}

/// The older nodes of some contradictions.
pub open spec fn older_ids(list: Seq<ContradictionModel>) -> Seq<Seq<char>> {
    Seq::new(list.len(), |i: int| list[i].older_node_id)
}

fn ids_of_older(list: &Vec<Contradiction>) -> (r: Vec<String>)
    ensures
        texts(r@) == older_ids(views(list@)),
{
    let ghost all = older_ids(views(list@));
    let mut out: Vec<String> = Vec::new();
    let mut i: usize = 0;
    while i < list.len()
        invariant
            i <= list@.len(),
            all == older_ids(views(list@)),
            texts(out@) == all.take(i as int),
        decreases list.len() - i,
    {
        let ghost before = texts(out@);
        out.push(list[i].older_node_id.clone());
        proof {
            assert(texts(out@) =~= before.push(list@[i as int].older_node_id@));
            assert(texts(out@) =~= all.take(i as int + 1));
        }
        i += 1;
    }
    proof {
        assert(all.take(i as int) =~= all);
    }
    out
}

/// Closed nodes that an answer warns of: those among the evidence or contradicted by it, and
/// those that share more than a thousandth of their terms with the question and have no later
/// version that holds.
pub open spec fn stale_shown(
    query: QueryModel,
    history: Seq<NodeModel>,
    ids: Seq<Seq<char>>,
    older: Seq<Seq<char>>,
    at: i64,
) -> spec_fn(NodeModel) -> bool {
    |node: NodeModel|
        node.stale_at(at) && (ids.contains(node.id) || older.contains(node.id) || (answers(
            query.modes,
            node.kind,
        ) && !has_successor(history, node, at) && overlap_share(
            query.question,
            node.text,
        ) > in_24_digits(1, 1_000)))
}

pub struct StaleShown<'a> {
    pub query: &'a MemoryQuery,
    pub history: &'a Vec<MemoryNode>,
    pub ids: &'a Vec<String>,
    pub older: &'a Vec<String>,
    pub at: i64,
}

impl<'a> Rule<MemoryNode> for StaleShown<'a> {
    open spec fn test(&self) -> spec_fn(NodeModel) -> bool {
        stale_shown(
            self.query@,
            views(self.history@),
            texts(self.ids@),
            texts(self.older@),
            self.at,
        )
    }

    fn admits(&self, row: &MemoryNode) -> (r: bool) {
        if !row.stale_at(self.at) {
            return false;
        }
        if list_contains(self.ids, row.id.as_str()) || list_contains(self.older, row.id.as_str()) {
            return true;
        }
        if row.kind == MemoryNodeKind::EntityCue || !self.query.accepts_kind(row.kind)
            || has_visible_family_successor(self.history, row, self.at) {
            return false;
        }
        let overlap = overlap_score(self.query.question.as_str(), row.text.as_str());
        overlap.share() > fraction_in_24_digits(1, 1_000)
    }
}

/// Nodes in the order of their identifiers.
pub struct ById;

impl Ranking<MemoryNode> for ById {
    open spec fn before(a: NodeModel, b: NodeModel) -> bool {
        text_less(a.id, b.id)
    }

    fn precedes(a: &MemoryNode, b: &MemoryNode) -> (r: bool) {
        is_text_less(a.id.as_str(), b.id.as_str())
    }

    proof fn lawful() {
        assert forall|a: NodeModel, b: NodeModel|
            !(#[trigger] Self::before(a, b) && #[trigger] Self::before(b, a)) by {
            if Self::before(a, b) && Self::before(b, a) {
                lemma_text_less_transitive(a.id, b.id, a.id);
                lemma_text_less_irreflexive(a.id);
            }
        }
        assert forall|a: NodeModel, b: NodeModel, c: NodeModel|
            !#[trigger] Self::before(a, b) && !#[trigger] Self::before(
                b,
                c,
            ) implies !Self::before(a, c) by {
            if Self::before(a, c) {
                lemma_text_less_total(a.id, b.id);
                lemma_text_less_total(b.id, c.id);
                if text_less(b.id, a.id) {
                    lemma_text_less_transitive(b.id, a.id, c.id);
                }
                if text_less(c.id, b.id) {
                    lemma_text_less_transitive(a.id, c.id, b.id);
                }
            }
        }
    }
}

/// Closed nodes as an answer warns of them.
pub open spec fn as_stale(nodes: Seq<NodeModel>) -> Seq<StaleModel> {
    Seq::new(
        nodes.len(),
        |i: int|
            StaleModel {
                node_id: nodes[i].id,
                summary: concise_form(nodes[i].text, 180),
                invalidated_at_unix_ms: nodes[i].valid_to_unix_ms,
            },
    )
}

/// The stale premises that an answer shows, in the order of their identifiers, each once.
pub open spec fn shown_stale(
    query: QueryModel,
    history: Seq<NodeModel>,
    ids: Seq<Seq<char>>,
    older: Seq<Seq<char>>,
    at: i64,
) -> Seq<StaleModel> {
    as_stale(
        ranked::<MemoryNode, ById>(
            distinct_nodes(history.filter(stale_shown(query, history, ids, older, at))),
        ),
    )
}

/// The stale premises that an answer shows.
pub fn stale_assumptions_for(
    query: &MemoryQuery,
    history: &Vec<MemoryNode>,
    ids: &Vec<String>,
    contradictions: &Vec<Contradiction>,
    at: i64,
) -> (r: Vec<StaleAssumption>)
    ensures
        views(r@) == shown_stale(
            query@,
            views(history@),
            texts(ids@),
            older_ids(views(contradictions@)),
            at,
        ),
{
    let older = ids_of_older(contradictions);
    let found = select(history, &StaleShown { query, history, ids, older: &older, at });
    let single = crate::store::keep_distinct(found);
    let sorted = sort_ranked::<MemoryNode, ById>(single);
    let ghost all = views(sorted@);
    let mut out: Vec<StaleAssumption> = Vec::new();
    let mut i: usize = 0;
    while i < sorted.len()
        invariant
            i <= sorted@.len(),
            all == views(sorted@),
            views(out@) == as_stale(all).take(i as int),
        decreases sorted.len() - i,
    {
        let ghost before = out@;
        let entry = StaleAssumption {
            node_id: sorted[i].id.clone(),
            summary: concise(sorted[i].text.as_str(), 180),
            invalidated_at_unix_ms: sorted[i].valid_to_unix_ms,
        };
        out.push(entry);
        proof {
            lemma_views_push(before, entry);
            assert(views(out@) =~= as_stale(all).take(i as int + 1));
        }
        i += 1;
    }
    proof {
        assert(as_stale(all).take(i as int) =~= as_stale(all));
    }
    out
}

// ---------------------------------------------------------------------------
// Follow-up questions
// ---------------------------------------------------------------------------
/// A list of terms with others added that are not in it.
pub open spec fn with_terms(list: Seq<Seq<char>>, more: Seq<Seq<char>>) -> Seq<Seq<char>>
    decreases more.len(),
{
    if more.len() == 0 {
        list
    } else {
        let front = with_terms(list, more.drop_last());
        if front.contains(more.last()) {
            front
        } else {
            front.push(more.last())
        }
    }
}

/// The telling terms of a question, followed by those of the evidence.
pub open spec fn follow_up_terms(question: Seq<char>, evidence: Seq<EvidenceModel>) -> Seq<
    Seq<char>,
>
    decreases evidence.len(),
{
    if evidence.len() == 0 {
        top_terms_of(question, 3)
    } else {
        with_terms(
            follow_up_terms(question, evidence.drop_last()),
            top_terms_of(evidence.last().text, 2),
        )
    }
}

/// Questions that follow up on some terms.
pub open spec fn follow_up_questions(found: Seq<Seq<char>>) -> Seq<Seq<char>> {
    Seq::new(found.len(), |i: int| "what should I remember about "@ + found[i] + "?"@)
}

/// The follow-up questions of an answer.
pub open spec fn suggestions(question: Seq<char>, evidence: Seq<EvidenceModel>) -> Seq<Seq<char>> {
    follow_up_questions(at_most(follow_up_terms(question, evidence), 3))
}

/// The follow-up questions of an answer.
pub fn suggested_queries(question: &str, evidence: &Vec<Evidence>) -> (r: Vec<String>)
    ensures
        texts(r@) == suggestions(question@, views(evidence@)),
{
    let ghost all = views(evidence@);
    let mut found = top_terms(question, 3);
    let mut i: usize = 0;
    proof {
        assert(all.take(0) =~= Seq::empty());
    }
    while i < evidence.len()
        invariant
            i <= evidence@.len(),
            all == views(evidence@),
            texts(found@) == follow_up_terms(question@, all.take(i as int)),
        decreases evidence.len() - i,
    {
        proof {
            assert(all.take(i as int + 1).drop_last() =~= all.take(i as int));
            assert(all.take(i as int + 1).last() == evidence@[i as int]@);
        }
        let more = top_terms(evidence[i].text.as_str(), 2);
        let ghost start = texts(found@);
        let ghost added = texts(more@);
        let mut k: usize = 0;
        proof {
            assert(added.take(0) =~= Seq::empty());
        }
        while k < more.len()
            invariant
                k <= more@.len(),
                added == texts(more@),
                texts(found@) == with_terms(start, added.take(k as int)),
            decreases more.len() - k,
        {
            proof {
                assert(added.take(k as int + 1).drop_last() =~= added.take(k as int));
                assert(added.take(k as int + 1).last() == more@[k as int]@);
            }
            if !list_contains(&found, more[k].as_str()) {
                let ghost before = texts(found@);
                found.push(more[k].clone());
                proof {
                    assert(texts(found@) =~= before.push(more@[k as int]@));
                }
            }
            k += 1;
        }
        proof {
            assert(added.take(k as int) =~= added);
        }
        i += 1;
    }
    proof {
        assert(all.take(i as int) =~= all);
    }
    let ghost list = texts(found@);
    if found.len() > 3 {
        found.truncate(3);
        proof {
            assert(texts(found@) =~= list.take(3));
        }
    }
    let ghost kept = texts(found@);
    let mut out: Vec<String> = Vec::new();
    let mut j: usize = 0;
    while j < found.len()
        invariant
            j <= found@.len(),
            kept == texts(found@),
            texts(out@) == follow_up_questions(kept).take(j as int),
        decreases found.len() - j,
    {
        let ghost before = texts(out@);
        let mut words = "what should I remember about ".to_owned();
        words.append(found[j].as_str());
        words.append("?");
        let ghost line = words@;
        out.push(words);
        proof {
            assert(texts(out@) =~= before.push(line));
            assert(texts(out@) =~= follow_up_questions(kept).take(j as int + 1));
        }
        j += 1;
    }
    proof {
        assert(follow_up_questions(kept).take(j as int) =~= follow_up_questions(kept));
    }
    out
}

// ---------------------------------------------------------------------------
// The text of an answer
// ---------------------------------------------------------------------------
/// A score in hundredths, rounded to the nearest and from the middle to the even one.
pub open spec fn score_hundredths(score: u32) -> int {
    let whole = score as int / 10_000_000;
    let rest = score as int % 10_000_000;
    if rest > 5_000_000 || (rest == 5_000_000 && whole % 2 == 1) {
        whole + 1
    } else {
        whole
    }
}

/// A score with two decimals.
pub open spec fn score_form(score: u32) -> Seq<char> {
    let h = score_hundredths(score);
    decimal((h / 100) as nat) + "."@ + seq![digit_char(h % 100 / 10), digit_char(h % 10)]
}

/// A score with two decimals.
pub fn score_text(score: u32) -> (r: String)
    ensures
        r@ == score_form(score),
{
    let whole: u32 = score / 10_000_000;
    let rest: u32 = score % 10_000_000;
    let hundredths: u32 = if rest > 5_000_000 || (rest == 5_000_000 && whole % 2 == 1) {
        whole + 1
    } else {
        whole
    };
    let mut out = decimal_text((hundredths / 100) as u64);
    out.append(".");
    let ghost head = out@;
    let tens = decimal_text((hundredths % 100 / 10) as u64);
    let ones = decimal_text((hundredths % 10) as u64);
    out.append(tens.as_str());
    out.append(ones.as_str());
    proof {
        let h = score_hundredths(score);
        assert(tens@ == seq![digit_char(h % 100 / 10)]);
        assert(ones@ == seq![digit_char(h % 10)]);
        assert(out@ =~= head + seq![digit_char(h % 100 / 10), digit_char(h % 10)]);
    }
    out
}

/// One item of evidence as a line.
pub open spec fn evidence_line(item: EvidenceModel) -> Seq<char> {
    "- ["@ + item.kind.name() + " score "@ + score_form(item.score) + "] "@ + concise_form(
        item.text,
        260,
    )
}

/// Some evidence as lines.
pub open spec fn evidence_lines(items: Seq<EvidenceModel>) -> Seq<Seq<char>> {
    Seq::new(items.len(), |i: int| evidence_line(items[i]))
}

/// The lines of an answer: a heading, up to eight items, and a warning where premises were
/// contradicted or superseded.
pub open spec fn answer_lines(evidence: Seq<EvidenceModel>, contradictions: nat) -> Seq<Seq<char>> {
    let lines = seq!["Relevant memory:"@] + evidence_lines(at_most(evidence, 8));
    if contradictions > 0 {
        lines.push(
            "Warning: "@ + decimal(contradictions)
                + " contradiction(s) or superseded premise(s) were surfaced."@,
        )
    } else {
        lines
    }
}

/// The text of an answer.
pub open spec fn answer_form(evidence: Seq<EvidenceModel>, contradictions: nat) -> Seq<char> {
    if evidence.len() == 0 {
        "No matching memory was found for this scope."@
    } else {
        join(answer_lines(evidence, contradictions), "\n"@)
    }
}

/// The text of an answer.
pub fn synthesize_answer(evidence: &Vec<Evidence>, contradictions: &Vec<Contradiction>) -> (r:
    String)
    ensures
        r@ == answer_form(views(evidence@), contradictions@.len()),
{
    if evidence.len() == 0 {
        return "No matching memory was found for this scope.".to_owned();
    }
    let ghost all = views(evidence@);
    let ghost shown = at_most(all, 8);
    let ghost body = evidence_lines(shown);
    let mut lines: Vec<String> = Vec::new();
    lines.push("Relevant memory:".to_owned());
    let mut i: usize = 0;
    proof {
        assert(texts(lines@) =~= seq!["Relevant memory:"@] + body.take(0));
    }
    while i < evidence.len() && i < 8
        invariant
            i <= evidence@.len(),
            i <= 8,
            all == views(evidence@),
            shown == at_most(all, 8),
            body == evidence_lines(shown),
            texts(lines@) == seq!["Relevant memory:"@] + body.take(i as int),
        decreases evidence.len() - i,
    {
        let ghost before = texts(lines@);
        let mut line = "- [".to_owned();
        line.append(evidence[i].kind.as_str());
        line.append(" score ");
        let score = score_text(evidence[i].score);
        line.append(score.as_str());
        line.append("] ");
        let text = concise(evidence[i].text.as_str(), 260);
        line.append(text.as_str());
        let ghost added = line@;
        lines.push(line);
        proof {
            assert(shown[i as int] == evidence@[i as int]@);
            assert(added == body[i as int]);
            assert(texts(lines@) =~= before.push(added));
            assert(texts(lines@) =~= seq!["Relevant memory:"@] + body.take(i as int + 1));
        }
        i += 1;
    }
    proof {
        assert(body.take(i as int) =~= body);
    }
    if contradictions.len() > 0 {
        let ghost before = texts(lines@);
        let mut line = "Warning: ".to_owned();
        let number = decimal_text(contradictions.len() as u64);
        line.append(number.as_str());
        line.append(" contradiction(s) or superseded premise(s) were surfaced.");
        let ghost added = line@;
        lines.push(line);
        proof {
            assert(texts(lines@) =~= before.push(added));
        }
    }
    join_texts(&lines, "\n")
}

} // verus!
