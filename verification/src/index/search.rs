//! Search: what is asked of the full-text tables, and what is made of their rows.
use vstd::prelude::*;
use crate::api::SearchHit;
use crate::error::{CoreError, ErrorView};
use crate::id::{id_of, id_read, NodeId};
use crate::text::{blank, char_is_alphanumeric, chars_of, is_blank};

verus! {

/// Whether a character can stand in a search word.
pub open spec fn is_word_char(c: char) -> bool {
    char_is_alphanumeric(c) || c == '_'
}

/// The complete words of a text, and the word that its end leaves open.
pub open spec fn words_so_far(text: Seq<char>) -> (Seq<Seq<char>>, Seq<char>)
    decreases text.len(),
{
    if text.len() == 0 {
        (Seq::empty(), Seq::empty())
    } else {
        let (words, open) = words_so_far(text.drop_last());
        if is_word_char(text.last()) {
            (words, open.push(text.last()))
        } else if open.len() > 0 {
            (words.push(open), Seq::empty())
        } else {
            (words, Seq::empty())
        }
    }
}

/// The words of a text: its longest runs of word characters.
pub open spec fn words_of(text: Seq<char>) -> Seq<Seq<char>> {
    let (words, open) = words_so_far(text);
    if open.len() > 0 {
        words.push(open)
    } else {
        words
    }
}

/// A query for the first `n` words: each quoted, as a prefix, all of them wanted.
pub open spec fn match_text(words: Seq<Seq<char>>, n: nat) -> Seq<char>
    decreases n,
{
    if n == 0 || n > words.len() {
        Seq::empty()
    } else {
        match_text(words, (n - 1) as nat) + (if n == 1 {
            ""@
        } else {
            " AND "@
        }) + "\""@ + words[n - 1] + "\"*"@
    }
}

/// How many words a query takes.
pub open spec fn word_count(words: Seq<Seq<char>>) -> nat {
    if words.len() < 12 {
        words.len()
    } else {
        12
    }
}

/// The words of a text.
fn words(text: &str) -> (r: Vec<String>)
    ensures
        crate::api::texts_view(r@) == words_of(text@),
{
    let chars = chars_of(text);
    let mut r: Vec<String> = Vec::new();
    let mut open = String::new();
    let mut i: usize = 0;
    proof {
        assert(chars@.subrange(0, 0) =~= Seq::<char>::empty());
        assert(crate::api::texts_view(r@) =~= Seq::<Seq<char>>::empty());
    }
    while i < chars.len()
        invariant
            chars@ == text@,
            i <= chars@.len(),
            words_so_far(chars@.subrange(0, i as int)) == (crate::api::texts_view(r@), open@),
        decreases chars@.len() - i,
    {
        let c = chars[i];
        proof {
            let s = chars@.subrange(0, i + 1);
            assert(s.drop_last() =~= chars@.subrange(0, i as int));
            assert(s.last() == c);
        }
        let ghost before = r@;
        if c.is_alphanumeric() || c == '_' {
            open.push(c);
        } else if !open.as_str().is_empty() {
            let ghost word = open@;
            r.push(open);
            open = String::new();
            proof {
                assert(crate::api::texts_view(r@) =~= crate::api::texts_view(before).push(word));
            }
        } else {
            proof {
                assert(open@ =~= Seq::<char>::empty());
            }
        }
        i = i + 1;
    }
    proof {
        assert(chars@.subrange(0, i as int) =~= text@);
    }
    if !open.as_str().is_empty() {
        let ghost before = r@;
        let ghost word = open@;
        r.push(open);
        proof {
            assert(crate::api::texts_view(r@) =~= crate::api::texts_view(before).push(word));
        }
    }
    r
}

/// The full-text query of what a user typed: its first twelve words, each as a prefix, all of them
/// wanted; nothing that was typed is read as query syntax. Without a word there is no query.
pub fn fts_query(value: &str) -> (r: Option<String>)
    ensures
        match r {
            Some(query) => words_of(value@).len() > 0 && query@ == match_text(
                words_of(value@),
                word_count(words_of(value@)),
            ),
            None => words_of(value@).len() == 0,
        },
{
    let all = words(value);
    let ghost texts = words_of(value@);
    if all.len() == 0 {
        return None;
    }
    let count: usize = if all.len() < 12 {
        all.len()
    } else {
        12
    };
    let mut query = String::new();
    let mut i: usize = 0;
    proof {
        assert(query@ =~= Seq::<char>::empty());
    }
    while i < count
        invariant
            texts == crate::api::texts_view(all@),
            i <= count <= all@.len(),
            query@ == match_text(texts, i as nat),
        decreases count - i,
    {
        if i > 0 {
            query.append(" AND ");
        }
        proof {
            reveal_strlit("");
            assert(query@ =~= match_text(texts, i as nat) + (if i == 0 {
                ""@
            } else {
                " AND "@
            }));
        }
        query.append("\"");
        query.append(all[i].as_str());
        query.append("\"*");
        i = i + 1;
    }
    Some(query)
}

/// How many hits a search shows at most.
pub open spec fn hit_limit(limit: usize) -> nat {
    if limit < 1 {
        1
    } else if limit > 100 {
        100
    } else {
        limit as nat
    }
}

/// What a search asks for: the query, how many hits it shows, and how many rows it reads for that.
#[derive(Debug)]
pub struct SearchPlan {
    pub query: String,
    pub limit: usize,
    pub rows: usize,
}

/// Plans a search. Where nothing was typed that can be searched for, there is nothing to do.
pub fn plan_search(query: &str, limit: usize) -> (r: Option<SearchPlan>)
    ensures
        match r {
            Some(plan) => {
                &&& words_of(query@).len() > 0
                &&& plan.query@ == match_text(words_of(query@), word_count(words_of(query@)))
                &&& plan.limit == hit_limit(limit)
                &&& plan.rows == 4 * plan.limit
            },
            None => words_of(query@).len() == 0,
        },
{
    match fts_query(query) {
        None => None,
        Some(text) => {
            let limit: usize = if limit < 1 {
                1
            } else if limit > 100 {
                100
            } else {
                limit
            };
            Some(SearchPlan { query: text, limit, rows: 4 * limit })
        },
    }
}

/// A row that the full-text tables gave: the text of a Node ID, and what was found there.
#[derive(Debug)]
pub struct SearchRow {
    pub node_id: String,
    pub title: String,
    pub source_kind: String,
    pub snippet: String,
    pub rank: u64,
}

/// A hit, its texts taken as sequences of characters.
pub struct HitView {
    pub node_id: NodeId,
    pub title: Seq<char>,
    pub source_kind: Seq<char>,
    pub snippet: Seq<char>,
    pub rank: u64,
}

impl View for SearchHit {
    type V = HitView;

    open spec fn view(&self) -> HitView {
        HitView {
            node_id: self.node_id,
            title: self.title@,
            source_kind: self.source_kind@,
            snippet: self.snippet@,
            rank: self.rank,
        }
    }
}

/// The views of a run of hits.
pub open spec fn hits_view(hits: Seq<SearchHit>) -> Seq<HitView> {
    Seq::new(hits.len(), |i: int| hits[i]@)
}

/// Whether a Node is among the hits.
pub open spec fn is_hit(hits: Seq<HitView>, id: NodeId) -> bool {
    exists|i: int| 0 <= i < hits.len() && (#[trigger] hits[i]).node_id == id
}

/// The hit that a row makes: a blank title gives way to the ID.
pub open spec fn hit_of(row: SearchRow, id: NodeId) -> HitView {
    HitView {
        node_id: id,
        title: if is_blank(row.title@) {
            id.text()
        } else {
            row.title@
        },
        source_kind: row.source_kind@,
        snippet: row.snippet@,
        rank: row.rank,
    }
}

/// The hits of the first `n` rows: the first row of each Node, until there are enough.
pub open spec fn hits_of(rows: Seq<SearchRow>, n: nat, limit: nat) -> Result<
    Seq<HitView>,
    ErrorView,
>
    decreases n,
{
    if n == 0 || n > rows.len() {
        Ok(Seq::empty())
    } else {
        match hits_of(rows, (n - 1) as nat, limit) {
            Err(fault) => Err(fault),
            Ok(hits) => if hits.len() >= limit {
                Ok(hits)
            } else {
                match id_read(rows[n - 1].node_id@) {
                    Err(fault) => Err(fault),
                    Ok(bytes) => if is_hit(hits, id_of(bytes)) {
                        Ok(hits)
                    } else {
                        Ok(hits.push(hit_of(rows[n - 1], id_of(bytes))))
                    },
                }
            },
        }
    }
}

proof fn lemma_hits_settled(rows: Seq<SearchRow>, n: nat, all: nat, limit: nat)
    requires
        n <= all <= rows.len(),
        match hits_of(rows, n, limit) {
            Err(_) => true,
            Ok(hits) => hits.len() >= limit,
        },
    ensures
        hits_of(rows, all, limit) == hits_of(rows, n, limit),
    decreases all,
{
    if n < all {
        lemma_hits_settled(rows, n, (all - 1) as nat, limit);
    }
}

/// A search shows no Node twice, and no more hits than it may.
pub proof fn law_hits_are_distinct(rows: Seq<SearchRow>, n: nat, limit: nat)
    requires
        n <= rows.len(),
    ensures
        match hits_of(rows, n, limit) {
            Ok(hits) => {
                &&& hits.len() <= limit
                &&& forall|i: int, j: int|
                    0 <= i < j < hits.len() ==> (#[trigger] hits[i]).node_id != (
                    #[trigger] hits[j]).node_id
            },
            Err(_) => true,
        },
    decreases n,
{
    if n > 0 {
        law_hits_are_distinct(rows, (n - 1) as nat, limit);
    }
}

/// The hits of a search, of the rows that the full-text tables gave for its plan.
pub fn search_hits(rows: &Vec<SearchRow>, limit: usize) -> (r: Result<Vec<SearchHit>, CoreError>)
    requires
        limit > 0,
    ensures
        match r {
            Ok(hits) => hits_of(rows@, rows@.len(), limit as nat) == Ok::<Seq<HitView>, ErrorView>(
                hits_view(hits@),
            ),
            Err(e) => hits_of(rows@, rows@.len(), limit as nat) == Err::<Seq<HitView>, ErrorView>(
                e@,
            ),
        },
{
    let mut hits: Vec<SearchHit> = Vec::new();
    let mut i: usize = 0;
    proof {
        assert(hits_view(hits@) =~= Seq::<HitView>::empty());
    }
    while i < rows.len()
        invariant
            i <= rows@.len(),
            limit > 0,
            hits@.len() < limit,
            hits_of(rows@, i as nat, limit as nat) == Ok::<Seq<HitView>, ErrorView>(
                hits_view(hits@),
            ),
        decreases rows@.len() - i,
    {
        let row = &rows[i];
        let id = match NodeId::parse(row.node_id.as_str()) {
            Err(e) => {
                proof {
                    lemma_hits_settled(rows@, (i + 1) as nat, rows@.len(), limit as nat);
                }
                return Err(e);
            },
            Ok(id) => id,
        };
        proof {
            NodeId::lemma_id_of(id);
        }
        let mut seen = false;
        let mut k: usize = 0;
        while k < hits.len()
            invariant
                k <= hits@.len(),
                seen == exists|j: int| 0 <= j < k && (#[trigger] hits_view(hits@)[j]).node_id == id,
            decreases hits@.len() - k,
        {
            proof {
                assert(hits_view(hits@)[k as int].node_id == hits@[k as int].node_id);
            }
            if hits[k].node_id.same(&id) {
                seen = true;
            }
            k = k + 1;
        }
        if !seen {
            let title = if blank(row.title.as_str()) {
                id.to_string()
            } else {
                row.title.clone()
            };
            let ghost before = hits@;
            let hit = SearchHit {
                node_id: id,
                title,
                source_kind: row.source_kind.clone(),
                snippet: row.snippet.clone(),
                rank: row.rank,
            };
            hits.push(hit);
            proof {
                assert(hits_view(hits@) =~= hits_view(before).push(hit@));
            }
            if hits.len() == limit {
                proof {
                    lemma_hits_settled(rows@, (i + 1) as nat, rows@.len(), limit as nat);
                }
                return Ok(hits);
            }
        }
        i = i + 1;
    }
    Ok(hits)
}

} // verus!
