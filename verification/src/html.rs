use vstd::prelude::*;
use crate::accent::edges_spec;
use crate::accent::generate_mora_edges;
use crate::accent::Accent;
use crate::accent::AccentV;
use crate::accent::MoraEdges;
use crate::accent::WordAccents;
use crate::accent::WordAccentsV;
use crate::dict::load_spec;
use crate::dict::spec_get;
use crate::dict::AccentMap;
use crate::dict::LoadErrorV;
use crate::dict::Word;
use crate::kana::mora_count;
use crate::kana::segment;
use crate::kana::KanaString;
use crate::scan::join;
use crate::scan::join_from;
use crate::scan::join_strings;
use vstd::string::StringExecFns;

verus! {

/// The inline style of one border edge, in the fixed color and width the
/// consuming renderer expects.
pub open spec fn edge_css(e: MoraEdges) -> Seq<char> {
    match e {
        MoraEdges::Top => "BORDER-TOP: #FF6633 medium solid;"@,
        MoraEdges::Bottom => "BORDER-BOTTOM: #FF6633 medium solid;"@,
        MoraEdges::Left => "BORDER-LEFT: #FF6633 medium solid;"@,
    }
}

/// The style declarations of an edge set, concatenated in encounter order.
pub open spec fn edges_css(es: Seq<MoraEdges>) -> Seq<char>
    decreases es.len(),
{
    if es.len() == 0 {
        Seq::empty()
    } else {
        edge_css(es[0]) + edges_css(es.drop_first())
    }
}

/// One mora's styled span.
pub open spec fn span_html(es: Seq<MoraEdges>, mora: Seq<char>) -> Seq<char> {
    "<span style=\""@ + edges_css(es) + "\">"@ + mora + "</span>"@
}

/// The spans of a reading: morae zipped with their edge sets, in order.
pub open spec fn spans_html(morae: Seq<Seq<char>>, edges: Seq<Seq<MoraEdges>>) -> Seq<char>
    decreases morae.len(),
{
    if morae.len() == 0 || edges.len() == 0 {
        Seq::empty()
    } else {
        span_html(edges[0], morae[0]) + spans_html(morae.drop_first(), edges.drop_first())
    }
}

/// The markup of one accent entry: the reading extended by a trailing
/// ellipsis for the following particle, one span per position, and a bold
/// label in front when the entry carries a note.
pub open spec fn accent_html(kana: Seq<char>, a: AccentV) -> Seq<char> {
    let edges = edges_spec(a.accent_type, mora_count(kana));
    let morae = segment(kana.push('…'));
    let body = spans_html(morae, edges);
    match a.note {
        Some(note) => "<span style=\"font-weight:bold\">"@ + note + ": </span>"@ + body,
        None => body,
    }
}

/// The markup of one dictionary row: its accent entries joined by a middle
/// dot.
pub open spec fn word_accents_html(wa: WordAccentsV) -> Seq<char> {
    join(Seq::new(wa.accents.len(), |i: int| accent_html(wa.kana, wa.accents[i])), "・"@)
}

/// The markup of all rows of a word, joined by a paragraph break.
pub open spec fn rows_html(rows: Seq<WordAccentsV>) -> Seq<char> {
    join(
        Seq::new(rows.len(), |i: int| word_accents_html(rows[i])),
        "<div style=\"line-height:100%;\"><br></div>"@,
    )
}

/// The markup of a word under a dictionary: every row's markup inside a
/// center-aligned container; an unknown word gives the empty container.
pub open spec fn html_spec(word: Seq<char>, m: Seq<(Seq<char>, Seq<WordAccentsV>)>) -> Seq<char> {
    let inner = match spec_get(m, word) {
        Some(rows) => rows_html(rows),
        None => Seq::<char>::empty(),
    };
    "<div style=\"text-align: center\">"@ + inner + "</div>"@
}

/// A word no dictionary row carries renders as the bare empty container,
/// whatever the dictionary holds.
pub proof fn lemma_unknown_word_empty(word: Seq<char>, m: Seq<(Seq<char>, Seq<WordAccentsV>)>)
    requires
        spec_get(m, word) is None,
    ensures
        html_spec(word, m) == "<div style=\"text-align: center\"></div>"@,
{
    reveal_strlit("<div style=\"text-align: center\">");
    reveal_strlit("</div>");
    reveal_strlit("<div style=\"text-align: center\"></div>");
    assert(html_spec(word, m) =~= "<div style=\"text-align: center\"></div>"@);
}

/// Loading the same resource twice gives dictionaries that render every word
/// identically: the dictionary is a function of the resource text alone.
pub proof fn lemma_load_idempotent(
    text: Seq<char>,
    m1: Seq<(Seq<char>, Seq<WordAccentsV>)>,
    m2: Seq<(Seq<char>, Seq<WordAccentsV>)>,
    word: Seq<char>,
)
    requires
        load_spec(text) == Ok::<Seq<(Seq<char>, Seq<WordAccentsV>)>, LoadErrorV>(m1),
        load_spec(text) == Ok::<Seq<(Seq<char>, Seq<WordAccentsV>)>, LoadErrorV>(m2),
    ensures
        m1 == m2,
        html_spec(word, m1) == html_spec(word, m2),
{
}

/// Renders one accent entry of a reading: the mora spans, preceded by the
/// bold note label when the entry carries a note.
pub fn generate_html_for_accent(kana_string: &KanaString, accent: &Accent) -> (r: String)
    ensures
        r@ == accent_html(kana_string@, accent@),
{
    let mora_edges = generate_mora_edges(kana_string, &accent.accent_type);
    let mut ext: String = kana_string.0.clone();
    ext.append("…");
    proof {
        reveal_strlit("…");
        assert(ext@ =~= kana_string@.push('…'));
    }
    let ext_kana = KanaString(ext);
    let morae = ext_kana.iter_mora();
    let ghost mdv = morae.deep_view();
    let ghost edv = edges_spec(accent.accent_type, mora_count(kana_string@));
    let mut out = String::new();
    match &accent.note {
        Some(note) => {
            out.append("<span style=\"font-weight:bold\">");
            out.append(note.as_str());
            out.append(": </span>");
        },
        None => {},
    }
    let ghost base = out@;
    let count = if morae.len() < mora_edges.len() {
        morae.len()
    } else {
        mora_edges.len()
    };
    proof {
        assert(mdv.len() == morae@.len());
        assert(mdv.skip(0) =~= mdv);
        assert(edv.skip(0) =~= edv);
    }
    let mut i: usize = 0;
    while i < count
        invariant
            i <= count,
            count <= morae@.len(),
            count <= mora_edges@.len(),
            count == if morae@.len() < mora_edges@.len() {
                morae@.len()
            } else {
                mora_edges@.len()
            },
            mdv == morae.deep_view(),
            mdv.len() == morae@.len(),
            edv.len() == mora_edges@.len() && (forall|k: int|
                0 <= k < edv.len() ==> mora_edges@[k]@ == edv[k]),
            out@ + spans_html(mdv.skip(i as int), edv.skip(i as int)) == base + spans_html(
                mdv,
                edv,
            ),
        decreases count - i,
    {
        proof {
            assert(mdv.skip(i as int)[0] == mdv[i as int]);
            assert(edv.skip(i as int)[0] == edv[i as int]);
            assert(mdv.skip(i as int).drop_first() =~= mdv.skip(i as int + 1));
            assert(edv.skip(i as int).drop_first() =~= edv.skip(i as int + 1));
            assert(mdv[i as int] == morae@[i as int]@);
        }
        let ghost out0 = out@;
        out.append("<span style=\"");
        let es: &Vec<MoraEdges> = &mora_edges[i];
        let ghost esv = es@;
        let ne = es.len();
        proof {
            assert(esv.skip(0) =~= esv);
        }
        let mut j: usize = 0;
        while j < ne
            invariant
                j <= ne,
                ne == esv.len(),
                esv == es@,
                out@ + edges_css(esv.skip(j as int)) == out0 + "<span style=\""@ + edges_css(esv),
            decreases ne - j,
        {
            proof {
                assert(esv.skip(j as int)[0] == esv[j as int]);
                assert(esv.skip(j as int).drop_first() =~= esv.skip(j as int + 1));
            }
            let ghost outj = out@;
            match es[j] {
                MoraEdges::Top => out.append("BORDER-TOP: #FF6633 medium solid;"),
                MoraEdges::Bottom => out.append("BORDER-BOTTOM: #FF6633 medium solid;"),
                MoraEdges::Left => out.append("BORDER-LEFT: #FF6633 medium solid;"),
            }
            proof {
                assert(out@ =~= outj + edge_css(esv[j as int]));
                assert(outj + edge_css(esv[j as int]) + edges_css(esv.skip(j as int + 1)) =~= outj
                    + edges_css(esv.skip(j as int)));
            }
            j = j + 1;
        }
        proof {
            assert(edges_css(esv.skip(ne as int)) =~= Seq::<char>::empty());
            assert(out@ + Seq::<char>::empty() =~= out@);
            assert(out@ == out0 + "<span style=\""@ + edges_css(esv));
        }
        out.append("\">");
        out.append(morae[i].as_str());
        out.append("</span>");
        proof {
            assert(out@ =~= out0 + span_html(esv, mdv[i as int]));
            assert(esv == edv[i as int]);
            assert(out0 + span_html(edv[i as int], mdv[i as int]) + spans_html(
                mdv.skip(i as int + 1),
                edv.skip(i as int + 1),
            ) =~= out0 + spans_html(mdv.skip(i as int), edv.skip(i as int)));
        }
        i = i + 1;
    }
    proof {
        if mdv.skip(count as int).len() == 0 || edv.skip(count as int).len() == 0 {
            assert(spans_html(mdv.skip(count as int), edv.skip(count as int)) =~= Seq::<
                char,
            >::empty());
        }
        assert(out@ + Seq::<char>::empty() =~= out@);
        assert(out@ == base + spans_html(mdv, edv));
        assert(mdv == segment(kana_string@.push('…')));
        assert(base + spans_html(mdv, edv) =~= accent_html(kana_string@, accent@));
    }
    out
}

/// Renders one dictionary row: its accent entries joined by a middle dot.
fn render_word_accents(wa: &WordAccents) -> (r: String)
    ensures
        r@ == word_accents_html(wa@),
{
    let n = wa.accents.len();
    let mut pieces: Vec<String> = Vec::new();
    let mut i: usize = 0;
    while i < n
        invariant
            i <= n,
            n == wa.accents@.len(),
            pieces@.len() == i,
            forall|k: int|
                0 <= k < i ==> pieces.deep_view()[k] == accent_html(
                    wa@.kana,
                    wa@.accents[k],
                ),
        decreases n - i,
    {
        let piece = generate_html_for_accent(&wa.kana, &wa.accents[i]);
        proof {
            assert(wa@.accents[i as int] == wa.accents@[i as int]@);
        }
        let ghost old_dv = pieces.deep_view();
        pieces.push(piece);
        proof {
            assert(pieces.deep_view() =~= old_dv.push(piece@));
        }
        i = i + 1;
    }
    let r = join_strings(&pieces, "・");
    proof {
        assert(pieces.deep_view() =~= Seq::new(
            wa@.accents.len(),
            |k: int| accent_html(wa@.kana, wa@.accents[k]),
        ));
    }
    r
}

/// Renders a word's pitch-accent diagram from the dictionary: every row of
/// the word, rows joined by a paragraph break, inside a center-aligned
/// container. An unknown word renders as the empty container.
pub fn generate_html(word: &Word, accent_map: &AccentMap) -> (r: String)
    ensures
        r@ == html_spec(word@, accent_map@),
{
    let mut inner = String::new();
    match accent_map.get(word) {
        None => {
            proof {
                assert(inner@ =~= Seq::<char>::empty());
            }
        },
        Some(rows) => {
            let n = rows.len();
            let ghost rdv = rows.deep_view();
            let mut pieces: Vec<String> = Vec::new();
            let mut i: usize = 0;
            while i < n
                invariant
                    i <= n,
                    n == rows@.len(),
                    rdv == rows.deep_view(),
                    pieces@.len() == i,
                    forall|k: int|
                        0 <= k < i ==> pieces.deep_view()[k] == word_accents_html(rdv[k]),
                decreases n - i,
            {
                let piece = render_word_accents(&rows[i]);
                proof {
                    assert(rdv[i as int] == rows@[i as int]@);
                }
                let ghost old_dv = pieces.deep_view();
                pieces.push(piece);
                proof {
                    assert(pieces.deep_view() =~= old_dv.push(piece@));
                }
                i = i + 1;
            }
            inner = join_strings(&pieces, "<div style=\"line-height:100%;\"><br></div>");
            proof {
                assert(pieces.deep_view() =~= Seq::new(
                    rdv.len(),
                    |k: int| word_accents_html(rdv[k]),
                ));
                assert(inner@ == rows_html(rdv));
            }
        },
    }
    let mut out = String::new();
    out.append("<div style=\"text-align: center\">");
    out.append(inner.as_str());
    out.append("</div>");
    proof {
        assert(out@ =~= html_spec(word@, accent_map@));
    }
    out
}

} // verus!
