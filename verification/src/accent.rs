use vstd::prelude::*;
use crate::kana::KanaString;
use crate::kana::mora_count;

verus! {

/// One of the four canonical Japanese pitch-accent patterns. `Nakadaka`
/// carries the 0-based mora index at which pitch drops.
#[derive(Debug, Copy, Clone, PartialEq, Eq, Hash, Structural)]
pub enum AccentType {
    Heiban,
    Atamadaka,
    Nakadaka(usize),
    Odaka,
}

/// A border edge of one mora's box in the rendered diagram: `Top` marks high
/// pitch, `Bottom` low pitch, `Left` a pitch transition at the mora's left
/// boundary.
#[derive(Debug, Copy, Clone, PartialEq, Eq, Structural)]
pub enum MoraEdges {
    Top,
    Bottom,
    Left,
}

/// One accent pattern for one reading, with an optional free-text annotation
/// such as a part-of-speech marker.
#[derive(Debug, Clone)]
pub struct Accent {
    pub accent_type: AccentType,
    pub note: Option<String>,
}

/// Mathematical image of an `Accent`.
pub ghost struct AccentV {
    pub accent_type: AccentType,
    pub note: Option<Seq<char>>,
}

impl View for Accent {
    type V = AccentV;

    open spec fn view(&self) -> AccentV {
        AccentV { accent_type: self.accent_type, note: self.note.deep_view() }
    }
}

impl DeepView for Accent {
    type V = AccentV;

    open spec fn deep_view(&self) -> AccentV {
        self.view()
    }
}

/// One dictionary row: a reading together with every accent pattern the row
/// lists for it, in source order.
#[derive(Debug, Clone)]
pub struct WordAccents {
    pub kana: KanaString,
    pub accents: Vec<Accent>,
}

/// Mathematical image of a `WordAccents`.
pub ghost struct WordAccentsV {
    pub kana: Seq<char>,
    pub accents: Seq<AccentV>,
}

impl View for WordAccents {
    type V = WordAccentsV;

    open spec fn view(&self) -> WordAccentsV {
        WordAccentsV { kana: self.kana@, accents: self.accents.deep_view() }
    }
}

impl DeepView for WordAccents {
    type V = WordAccentsV;

    open spec fn deep_view(&self) -> WordAccentsV {
        self.view()
    }
}

/// The invariant of an accent pattern against the mora count of its reading:
/// a mid-word drop must lie strictly between the second mora and the end.
pub open spec fn accent_type_wf(a: AccentType, n_mora: nat) -> bool {
    match a {
        AccentType::Nakadaka(d) => 2 <= d < n_mora,
        _ => true,
    }
}

/// The invariant of a dictionary row: every accent pattern respects the mora
/// count of the row's reading.
pub open spec fn word_accents_wf(wa: WordAccentsV) -> bool {
    forall|i: int|
        0 <= i < wa.accents.len() ==> accent_type_wf(
            wa.accents[i].accent_type,
            mora_count(wa.kana),
        )
}

/// The classification rule for a raw accent code `index` against the mora
/// count of the reading it belongs to.
pub open spec fn classify_spec(index: nat, n_mora: nat) -> AccentType {
    if index == 0 {
        AccentType::Heiban
    } else if index == 1 {
        AccentType::Atamadaka
    } else if index == n_mora {
        AccentType::Odaka
    } else {
        AccentType::Nakadaka(index as usize)
    }
}

/// Derives the canonical accent pattern from a raw accent code and the mora
/// count of the word's reading.
pub fn classify(index: usize, n_mora: usize) -> (r: AccentType)
    ensures
        r == classify_spec(index as nat, n_mora as nat),
{
    if index == 0 {
        AccentType::Heiban
    } else if index == 1 {
        AccentType::Atamadaka
    } else if index == n_mora {
        AccentType::Odaka
    } else {
        AccentType::Nakadaka(index)
    }
}

/// The border edges of the mora at position `i` of a reading of `n_mora`
/// morae, for accent pattern `a`.
pub open spec fn mora_edges_at(a: AccentType, n_mora: nat, i: nat) -> Seq<MoraEdges> {
    match a {
        AccentType::Heiban => if i == 0 {
            seq![MoraEdges::Bottom]
        } else if i == 1 {
            seq![MoraEdges::Left, MoraEdges::Top]
        } else {
            seq![MoraEdges::Top]
        },
        AccentType::Atamadaka => if i == 0 {
            seq![MoraEdges::Top]
        } else if i == 1 {
            seq![MoraEdges::Left, MoraEdges::Bottom]
        } else {
            seq![MoraEdges::Bottom]
        },
        AccentType::Nakadaka(d) => if i == 0 {
            seq![MoraEdges::Bottom]
        } else if i == 1 {
            seq![MoraEdges::Left, MoraEdges::Top]
        } else if i < d {
            seq![MoraEdges::Top]
        } else if i == d {
            seq![MoraEdges::Left, MoraEdges::Bottom]
        } else {
            seq![MoraEdges::Bottom]
        },
        AccentType::Odaka => if i == 0 {
            if n_mora == 1 {
                seq![MoraEdges::Top]
            } else {
                seq![MoraEdges::Bottom]
            }
        } else if i == 1 {
            seq![MoraEdges::Left, MoraEdges::Top]
        } else {
            seq![MoraEdges::Top]
        },
    }
}

/// The border edges of the synthetic trailing position that stands for the
/// particle following the word.
pub open spec fn trailing_edges(a: AccentType) -> Seq<MoraEdges> {
    match a {
        AccentType::Heiban => seq![MoraEdges::Top],
        AccentType::Atamadaka => seq![MoraEdges::Bottom],
        AccentType::Nakadaka(_) => seq![MoraEdges::Bottom],
        AccentType::Odaka => seq![MoraEdges::Left, MoraEdges::Bottom],
    }
}

/// The whole edge table for a reading of `n_mora` morae: one entry per mora
/// and one more for the trailing particle position.
pub open spec fn edges_spec(a: AccentType, n_mora: nat) -> Seq<Seq<MoraEdges>> {
    Seq::new(
        n_mora + 1,
        |i: int|
            if i < n_mora {
                mora_edges_at(a, n_mora, i as nat)
            } else {
                trailing_edges(a)
            },
    )
}

fn edges1(a: MoraEdges) -> (r: Vec<MoraEdges>)
    ensures
        r@ =~= seq![a],
{
    let mut v: Vec<MoraEdges> = Vec::new();
    v.push(a);
    v
}

fn edges2(a: MoraEdges, b: MoraEdges) -> (r: Vec<MoraEdges>)
    ensures
        r@ =~= seq![a, b],
{
    let mut v: Vec<MoraEdges> = Vec::new();
    v.push(a);
    v.push(b);
    v
}

/// Computes the edge table of a reading under an accent pattern: one edge set
/// per mora, and one for the trailing particle position.
pub fn generate_mora_edges(kana_string: &KanaString, accent_type: &AccentType) -> (r: Vec<
    Vec<MoraEdges>,
>)
    ensures
        r@.len() == mora_count(kana_string@) + 1,
        forall|i: int|
            0 <= i < r@.len() ==> r@[i]@ == edges_spec(*accent_type, mora_count(kana_string@))[i],
{
    let morae = kana_string.iter_mora();
    let n_mora = morae.len();
    proof {
        assert(morae.deep_view().len() == morae@.len());
        assert(n_mora == mora_count(kana_string@));
    }
    let mut r: Vec<Vec<MoraEdges>> = Vec::new();
    let mut i: usize = 0;
    while i < n_mora
        invariant
            n_mora == mora_count(kana_string@),
            i <= n_mora,
            r@.len() == i,
            forall|j: int|
                0 <= j < i ==> r@[j]@ == mora_edges_at(*accent_type, n_mora as nat, j as nat),
        decreases n_mora - i,
    {
        let entry = match accent_type {
            AccentType::Heiban => {
                if i == 0 {
                    edges1(MoraEdges::Bottom)
                } else if i == 1 {
                    edges2(MoraEdges::Left, MoraEdges::Top)
                } else {
                    edges1(MoraEdges::Top)
                }
            },
            AccentType::Atamadaka => {
                if i == 0 {
                    edges1(MoraEdges::Top)
                } else if i == 1 {
                    edges2(MoraEdges::Left, MoraEdges::Bottom)
                } else {
                    edges1(MoraEdges::Bottom)
                }
            },
            AccentType::Nakadaka(idx) => {
                if i == 0 {
                    edges1(MoraEdges::Bottom)
                } else if i == 1 {
                    edges2(MoraEdges::Left, MoraEdges::Top)
                } else if i < *idx {
                    edges1(MoraEdges::Top)
                } else if i == *idx {
                    edges2(MoraEdges::Left, MoraEdges::Bottom)
                } else {
                    edges1(MoraEdges::Bottom)
                }
            },
            AccentType::Odaka => {
                if i == 0 {
                    if n_mora == 1 {
                        edges1(MoraEdges::Top)
                    } else {
                        edges1(MoraEdges::Bottom)
                    }
                } else if i == 1 {
                    edges2(MoraEdges::Left, MoraEdges::Top)
                } else {
                    edges1(MoraEdges::Top)
                }
            },
        };
        r.push(entry);
        i = i + 1;
    }
    let trailing = match accent_type {
        AccentType::Heiban => edges1(MoraEdges::Top),
        AccentType::Atamadaka => edges1(MoraEdges::Bottom),
        AccentType::Nakadaka(_) => edges1(MoraEdges::Bottom),
        AccentType::Odaka => edges2(MoraEdges::Left, MoraEdges::Bottom),
    };
    r.push(trailing);
    r
}

} // verus!

