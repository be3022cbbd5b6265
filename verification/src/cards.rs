use vstd::prelude::*;
use crate::accent::WordAccentsV;
use crate::dict::AccentMap;
use crate::html::generate_html;
use crate::html::html_spec;

verus! {

/// One field of a card: the field's identifier and its content.
#[derive(Debug)]
pub struct CardField {
    pub id: String,
    pub value: String,
}

/// Mathematical image of a `CardField`.
pub ghost struct CardFieldV {
    pub id: Seq<char>,
    pub value: Seq<char>,
}

impl View for CardField {
    type V = CardFieldV;

    open spec fn view(&self) -> CardFieldV {
        CardFieldV { id: self.id@, value: self.value@ }
    }
}

impl DeepView for CardField {
    type V = CardFieldV;

    open spec fn deep_view(&self) -> CardFieldV {
        self.view()
    }
}

/// One field slot of a card template, as far as the card-update rule reads
/// it: its identifier, its display name and its position.
#[derive(Debug)]
pub struct TemplateField {
    pub id: String,
    pub name: String,
    pub pos: String,
}

/// Mathematical image of a `TemplateField`.
pub ghost struct TemplateFieldV {
    pub id: Seq<char>,
    pub name: Seq<char>,
    pub pos: Seq<char>,
}

impl View for TemplateField {
    type V = TemplateFieldV;

    open spec fn view(&self) -> TemplateFieldV {
        TemplateFieldV { id: self.id@, name: self.name@, pos: self.pos@ }
    }
}

impl DeepView for TemplateField {
    type V = TemplateFieldV;

    open spec fn deep_view(&self) -> TemplateFieldV {
        self.view()
    }
}

/// A card template, as far as the card-update rule reads it: its identifier
/// and its field slots.
#[derive(Debug)]
pub struct Template {
    pub id: String,
    pub name: String,
    pub content: String,
    pub fields: Option<Vec<TemplateField>>,
}

/// Mathematical image of a `Template`.
pub ghost struct TemplateV {
    pub id: Seq<char>,
    pub name: Seq<char>,
    pub content: Seq<char>,
    pub fields: Option<Seq<TemplateFieldV>>,
}

impl View for Template {
    type V = TemplateV;

    open spec fn view(&self) -> TemplateV {
        TemplateV {
            id: self.id@,
            name: self.name@,
            content: self.content@,
            fields: self.fields.deep_view(),
        }
    }
}

impl DeepView for Template {
    type V = TemplateV;

    open spec fn deep_view(&self) -> TemplateV {
        self.view()
    }
}

/// The first template with the given identifier.
pub open spec fn spec_find_template(ts: Seq<TemplateV>, tid: Seq<char>) -> Option<TemplateV>
    decreases ts.len(),
{
    if ts.len() == 0 {
        None
    } else if ts[0].id == tid {
        Some(ts[0])
    } else {
        spec_find_template(ts.drop_first(), tid)
    }
}

/// The first template field with the given display name.
pub open spec fn spec_find_field(fs: Seq<TemplateFieldV>, name: Seq<char>) -> Option<
    TemplateFieldV,
>
    decreases fs.len(),
{
    if fs.len() == 0 {
        None
    } else if fs[0].name == name {
        Some(fs[0])
    } else {
        spec_find_field(fs.drop_first(), name)
    }
}

/// The card field stored under the given key.
pub open spec fn spec_get_field(fs: Seq<(Seq<char>, CardFieldV)>, key: Seq<char>) -> Option<
    CardFieldV,
>
    decreases fs.len(),
{
    if fs.len() == 0 {
        None
    } else if fs[0].0 == key {
        Some(fs[0].1)
    } else {
        spec_get_field(fs.drop_first(), key)
    }
}

/// Stores a card field under a key: the first slot with that key is
/// replaced, or a new slot opens at the end.
pub open spec fn spec_put_field(
    fs: Seq<(Seq<char>, CardFieldV)>,
    key: Seq<char>,
    v: CardFieldV,
) -> Seq<(Seq<char>, CardFieldV)>
    decreases fs.len(),
{
    if fs.len() == 0 {
        seq![(key, v)]
    } else if fs[0].0 == key {
        seq![(fs[0].0, v)] + fs.drop_first()
    } else {
        seq![fs[0]] + spec_put_field(fs.drop_first(), key, v)
    }
}

/// The card-update rule: under the card's template, the field slot named as
/// the word field gives the word, and the slot named as the pitch-accent
/// field receives the word's rendered diagram. `None` where the template,
/// either slot, the card's fields or the word are missing: such a card stays
/// as it is.
pub open spec fn pitch_accent_spec(
    template_id: Seq<char>,
    fields: Option<Seq<(Seq<char>, CardFieldV)>>,
    templates: Seq<TemplateV>,
    word_field_name: Seq<char>,
    pitch_field_name: Seq<char>,
    m: Seq<(Seq<char>, Seq<WordAccentsV>)>,
) -> Option<Seq<(Seq<char>, CardFieldV)>> {
    match spec_find_template(templates, template_id) {
        Option::None => None,
        Option::Some(t) => match t.fields {
            Option::None => None,
            Option::Some(tfs) => match spec_find_field(tfs, word_field_name) {
                Option::None => None,
                Option::Some(wf) => match spec_find_field(tfs, pitch_field_name) {
                    Option::None => None,
                    Option::Some(pf) => match fields {
                        Option::None => None,
                        Option::Some(fs) => match spec_get_field(fs, wf.id) {
                            Option::None => None,
                            Option::Some(word_cf) => Some(
                                spec_put_field(
                                    fs,
                                    pf.id,
                                    CardFieldV { id: pf.id, value: html_spec(word_cf.value, m) },
                                ),
                            ),
                        },
                    },
                },
            },
        },
    }
}

/// The first template with the given identifier.
fn find_template<'a>(templates: &'a Vec<Template>, tid: &String) -> (r: Option<&'a Template>)
    ensures
        match r {
            Some(t) => spec_find_template(templates.deep_view(), tid@) == Some(t.deep_view()),
            None => spec_find_template(templates.deep_view(), tid@) is None,
        },
{
    let n = templates.len();
    let ghost ts = templates.deep_view();
    let mut i: usize = 0;
    proof {
        assert(ts.skip(0) =~= ts);
    }
    while i < n
        invariant
            i <= n,
            n == templates@.len(),
            ts == templates.deep_view(),
            spec_find_template(ts, tid@) == spec_find_template(ts.skip(i as int), tid@),
        decreases n - i,
    {
        proof {
            assert(ts.skip(i as int)[0] == ts[i as int]);
            assert(ts[i as int] == templates@[i as int].deep_view());
            assert(ts.skip(i as int).drop_first() =~= ts.skip(i as int + 1));
        }
        if templates[i].id == *tid {
            return Some(&templates[i]);
        }
        i = i + 1;
    }
    proof {
        assert(ts.skip(n as int) =~= Seq::<TemplateV>::empty());
    }
    None
}

/// The first template field with the given display name.
fn find_template_field<'a>(fs: &'a Vec<TemplateField>, name: &String) -> (r: Option<
    &'a TemplateField,
>)
    ensures
        match r {
            Some(f) => spec_find_field(fs.deep_view(), name@) == Some(f.deep_view()),
            None => spec_find_field(fs.deep_view(), name@) is None,
        },
{
    let n = fs.len();
    let ghost fv = fs.deep_view();
    let mut i: usize = 0;
    proof {
        assert(fv.skip(0) =~= fv);
    }
    while i < n
        invariant
            i <= n,
            n == fs@.len(),
            fv == fs.deep_view(),
            spec_find_field(fv, name@) == spec_find_field(fv.skip(i as int), name@),
        decreases n - i,
    {
        proof {
            assert(fv.skip(i as int)[0] == fv[i as int]);
            assert(fv[i as int] == fs@[i as int].deep_view());
            assert(fv.skip(i as int).drop_first() =~= fv.skip(i as int + 1));
        }
        if fs[i].name == *name {
            return Some(&fs[i]);
        }
        i = i + 1;
    }
    proof {
        assert(fv.skip(n as int) =~= Seq::<TemplateFieldV>::empty());
    }
    None
}

/// The card field stored under the given key.
fn get_card_field<'a>(fs: &'a Vec<(String, CardField)>, key: &String) -> (r: Option<&'a CardField>)
    ensures
        match r {
            Some(f) => spec_get_field(fs.deep_view(), key@) == Some(f.deep_view()),
            None => spec_get_field(fs.deep_view(), key@) is None,
        },
{
    let n = fs.len();
    let ghost fv = fs.deep_view();
    let mut i: usize = 0;
    proof {
        assert(fv.skip(0) =~= fv);
    }
    while i < n
        invariant
            i <= n,
            n == fs@.len(),
            fv == fs.deep_view(),
            spec_get_field(fv, key@) == spec_get_field(fv.skip(i as int), key@),
        decreases n - i,
    {
        proof {
            assert(fv.skip(i as int)[0] == fv[i as int]);
            assert(fv[i as int] == fs@[i as int].deep_view());
            assert(fv.skip(i as int).drop_first() =~= fv.skip(i as int + 1));
        }
        if fs[i].0 == *key {
            return Some(&fs[i].1);
        }
        i = i + 1;
    }
    proof {
        assert(fv.skip(n as int) =~= Seq::<(Seq<char>, CardFieldV)>::empty());
    }
    None
}

/// A copy of one card field.
fn copy_card_field(f: &CardField) -> (r: CardField)
    ensures
        r@ == f@,
{
    CardField { id: f.id.clone(), value: f.value.clone() }
}

/// Appends copies of the field slots in `[from, to)` onto `out`.
fn copy_fields_range(
    fs: &Vec<(String, CardField)>,
    from: usize,
    to: usize,
    out: &mut Vec<(String, CardField)>,
)
    requires
        from <= to <= fs@.len(),
    ensures
        final(out).deep_view() == old(out).deep_view() + fs.deep_view().subrange(
            from as int,
            to as int,
        ),
{
    let ghost base = out.deep_view();
    let mut i: usize = from;
    proof {
        assert(base + fs.deep_view().subrange(from as int, from as int) =~= base);
    }
    while i < to
        invariant
            from <= i <= to,
            to <= fs@.len(),
            out.deep_view() == base + fs.deep_view().subrange(from as int, i as int),
        decreases to - i,
    {
        let pair = (fs[i].0.clone(), copy_card_field(&fs[i].1));
        let ghost old_dv = out.deep_view();
        proof {
            assert(fs.deep_view()[i as int] == fs@[i as int].deep_view());
            assert(pair.deep_view() == fs.deep_view()[i as int]);
        }
        out.push(pair);
        proof {
            assert(out.deep_view() =~= old_dv.push(fs.deep_view()[i as int]));
            assert(old_dv.push(fs.deep_view()[i as int]) =~= base + fs.deep_view().subrange(
                from as int,
                i as int + 1,
            ));
        }
        i = i + 1;
    }
}

/// `spec_put_field` on a slot list whose first slot for `key` stands at `j`
/// replaces that slot's field.
proof fn lemma_put_field_found(
    fs: Seq<(Seq<char>, CardFieldV)>,
    key: Seq<char>,
    v: CardFieldV,
    j: int,
)
    requires
        0 <= j < fs.len(),
        fs[j].0 == key,
        forall|k: int| 0 <= k < j ==> fs[k].0 != key,
    ensures
        spec_put_field(fs, key, v) =~= fs.update(j, (fs[j].0, v)),
    decreases fs.len(),
{
    if j == 0 {
        assert(spec_put_field(fs, key, v) =~= fs.update(0, (fs[0].0, v)));
    } else {
        assert(fs[0].0 != key);
        assert forall|k: int| 0 <= k < j - 1 implies fs.drop_first()[k].0 != key by {
            assert(fs.drop_first()[k] == fs[k + 1]);
        }
        assert(fs.drop_first()[j - 1] == fs[j]);
        lemma_put_field_found(fs.drop_first(), key, v, j - 1);
        assert(spec_put_field(fs, key, v) =~= fs.update(j, (fs[j].0, v)));
    }
}

/// `spec_put_field` on a slot list without the key opens a slot at the end.
proof fn lemma_put_field_absent(fs: Seq<(Seq<char>, CardFieldV)>, key: Seq<char>, v: CardFieldV)
    requires
        forall|k: int| 0 <= k < fs.len() ==> fs[k].0 != key,
    ensures
        spec_put_field(fs, key, v) =~= fs.push((key, v)),
    decreases fs.len(),
{
    if fs.len() == 0 {
        assert(spec_put_field(fs, key, v) =~= fs.push((key, v)));
    } else {
        assert forall|k: int| 0 <= k < fs.drop_first().len() implies fs.drop_first()[k].0
            != key by {
            assert(fs.drop_first()[k] == fs[k + 1]);
        }
        lemma_put_field_absent(fs.drop_first(), key, v);
        assert(spec_put_field(fs, key, v) =~= fs.push((key, v)));
    }
}

/// Position of the first slot stored under the given key.
fn find_field_pos(fs: &Vec<(String, CardField)>, key: &String) -> (r: Option<usize>)
    ensures
        match r {
            Some(j) => j < fs@.len() && fs.deep_view()[j as int].0 == key@ && forall|k: int|
                0 <= k < j ==> fs.deep_view()[k].0 != key@,
            None => forall|k: int| 0 <= k < fs@.len() ==> fs.deep_view()[k].0 != key@,
        },
{
    let n = fs.len();
    let mut i: usize = 0;
    while i < n
        invariant
            i <= n,
            n == fs@.len(),
            forall|k: int| 0 <= k < i ==> fs.deep_view()[k].0 != key@,
        decreases n - i,
    {
        proof {
            assert(fs.deep_view()[i as int] == fs@[i as int].deep_view());
        }
        if fs[i].0 == *key {
            return Some(i);
        }
        i = i + 1;
    }
    None
}

/// A copy of the field slots with `value` stored under `key`: the first slot
/// with that key is replaced, or a new slot opens at the end.
fn put_card_field(fs: &Vec<(String, CardField)>, key: &String, value: CardField) -> (r: Vec<
    (String, CardField),
>)
    ensures
        r.deep_view() == spec_put_field(fs.deep_view(), key@, value@),
{
    let n = fs.len();
    let ghost fv = fs.deep_view();
    let mut out: Vec<(String, CardField)> = Vec::new();
    proof {
        assert(out.deep_view() =~= Seq::<(Seq<char>, CardFieldV)>::empty());
    }
    match find_field_pos(fs, key) {
        Some(j) => {
            copy_fields_range(fs, 0, j, &mut out);
            let ghost before = out.deep_view();
            out.push((fs[j].0.clone(), value));
            proof {
                assert(fs@[j as int].deep_view() == fv[j as int]);
                assert(out.deep_view() =~= before.push((fv[j as int].0, value@)));
            }
            copy_fields_range(fs, j + 1, n, &mut out);
            proof {
                lemma_put_field_found(fv, key@, value@, j as int);
                assert(out.deep_view() =~= fv.update(j as int, (fv[j as int].0, value@)));
            }
        },
        None => {
            copy_fields_range(fs, 0, n, &mut out);
            let ghost before = out.deep_view();
            out.push((key.clone(), value));
            proof {
                lemma_put_field_absent(fv, key@, value@);
                assert(before =~= fv);
                assert(out.deep_view() =~= fv.push((key@, value@)));
            }
        },
    }
    out
}

/// Fills a card's pitch-accent field from its word field: under the card's
/// template, the slot named as the word field gives the word, whose rendered
/// diagram is stored under the slot named as the pitch-accent field. `None`
/// where the template, either slot, the card's fields or the word are
/// missing: such a card stays as it is.
pub fn pitch_accent_fields(
    template_id: &String,
    fields: &Option<Vec<(String, CardField)>>,
    templates: &Vec<Template>,
    word_field_name: &String,
    pitch_accent_field_name: &String,
    accents: &AccentMap,
) -> (r: Option<Vec<(String, CardField)>>)
    ensures
        match r {
            Some(v) => pitch_accent_spec(
                template_id@,
                fields.deep_view(),
                templates.deep_view(),
                word_field_name@,
                pitch_accent_field_name@,
                accents@,
            ) == Some(v.deep_view()),
            None => pitch_accent_spec(
                template_id@,
                fields.deep_view(),
                templates.deep_view(),
                word_field_name@,
                pitch_accent_field_name@,
                accents@,
            ) is None,
        },
{
    let t = match find_template(templates, template_id) {
        Some(t) => t,
        None => {
            return None;
        },
    };
    let tfs = match &t.fields {
        Some(tfs) => tfs,
        None => {
            return None;
        },
    };
    let wf = match find_template_field(tfs, word_field_name) {
        Some(f) => f,
        None => {
            return None;
        },
    };
    let pf = match find_template_field(tfs, pitch_accent_field_name) {
        Some(f) => f,
        None => {
            return None;
        },
    };
    let fs = match fields {
        Some(fs) => fs,
        None => {
            return None;
        },
    };
    let word_cf = match get_card_field(fs, &wf.id) {
        Some(c) => c,
        None => {
            return None;
        },
    };
    let html = generate_html(&word_cf.value, accents);
    let new_field = CardField { id: pf.id.clone(), value: html };
    Some(put_card_field(fs, &pf.id, new_field))
}

} // verus!
