use vstd::prelude::*;
use crate::civil::{is_utc_civil_time, now_utc_rfc3339, reading_epoch, rfc3339_text};
use crate::text::{
    chars_of, eq_ignore_ascii_case, find_char, find_in_range, lemma_find_char,
    range_eq_ignore_ascii_case, str_equals, string_of_range, trim, trim_range,
};

verus! {

/// The level names that pick an embed colour.
pub open spec fn success_word() -> Seq<char> {
    seq!['s', 'u', 'c', 'c', 'e', 's', 's']
}

pub open spec fn warning_word() -> Seq<char> {
    seq!['w', 'a', 'r', 'n', 'i', 'n', 'g']
}

pub open spec fn error_word() -> Seq<char> {
    seq!['e', 'r', 'r', 'o', 'r']
}

pub open spec fn info_word() -> Seq<char> {
    seq!['i', 'n', 'f', 'o']
}

/// Decimal Discord colour of a notification level; any other level is `info` blue.
pub open spec fn level_color_of(level: Seq<char>) -> i64 {
    if level == success_word() {
        3066993
    } else if level == warning_word() {
        15105570
    } else if level == error_word() {
        15158332
    } else {
        3447003
    }
}

/// Discord colour for a level: green, yellow, red, and blue for `info` and anything else.
pub fn level_color(level: &str) -> (c: i64)
    ensures
        c == level_color_of(level@),
{
    if str_equals(level, &vec!['s', 'u', 'c', 'c', 'e', 's', 's']) {
        3066993
    } else if str_equals(level, &vec!['w', 'a', 'r', 'n', 'i', 'n', 'g']) {
        15105570
    } else if str_equals(level, &vec!['e', 'r', 'r', 'o', 'r']) {
        15158332
    } else {
        3447003
    }
}

/// What `str::to_lowercase` gives for `s` (Unicode lower case).
pub uninterp spec fn lowercase(s: Seq<char>) -> Seq<char>;

/// Calls `str::to_lowercase`, whose result depends on `s` alone and is named
/// `lowercase`; the Unicode case mapping itself is not stated.
#[verifier::external_body]
fn str_to_lowercase(s: &str) -> (r: String)
    ensures
        r@ == lowercase(s@),
{
    s.to_lowercase()
}

/// Discord notation of the mention `m`, whose lower case is `lowered`: `here` and
/// `everyone`, in any case, become `@here` and `@everyone`; any other mention is
/// passed on unchanged.
pub open spec fn mention_text(m: Seq<char>, lowered: Seq<char>) -> Seq<char> {
    if lowered == seq!['h', 'e', 'r', 'e'] {
        seq!['@', 'h', 'e', 'r', 'e']
    } else if lowered == seq!['e', 'v', 'e', 'r', 'y', 'o', 'n', 'e'] {
        seq!['@', 'e', 'v', 'e', 'r', 'y', 'o', 'n', 'e']
    } else {
        m
    }
}

/// Discord notation of the mention `m`, given its lower case `lowered`.
pub fn expand_mention(m: &str, lowered: &str) -> (r: String)
    ensures
        r@ == mention_text(m@, lowered@),
{
    if str_equals(lowered, &vec!['h', 'e', 'r', 'e']) {
        proof {
            reveal_strlit("@here");
        }
        "@here".to_owned()
    } else if str_equals(lowered, &vec!['e', 'v', 'e', 'r', 'y', 'o', 'n', 'e']) {
        proof {
            reveal_strlit("@everyone");
        }
        "@everyone".to_owned()
    } else {
        m.to_owned()
    }
}

/// Mention in Discord notation: `here`/`everyone` (in any case) expanded, any other
/// mention passed on unchanged.
pub fn mention_str(m: &str) -> (r: String)
    ensures
        r@ == mention_text(m@, lowercase(m@)),
{
    let lowered = str_to_lowercase(m);
    expand_mention(m, lowered.as_str())
}

/// One embed field: name, value, and whether it is shown inline.
pub struct EmbedField {
    pub name: String,
    pub value: String,
    pub inline: bool,
}

impl View for EmbedField {
    type V = (Seq<char>, Seq<char>, bool);

    open spec fn view(&self) -> (Seq<char>, Seq<char>, bool) {
        (self.name@, self.value@, self.inline)
    }
}

pub open spec fn true_word() -> Seq<char> {
    seq!['t', 'r', 'u', 'e']
}

/// The field that `Name:Value[:inline]` describes: the text is cut at the first two
/// `:` (the third part keeps any further `:`), name and value are trimmed, and the
/// third part, trimmed, sets `inline` when it reads `true` in any ASCII case.
/// No field when there is no `:` or the name is empty.
pub open spec fn field_parts(spec: Seq<char>) -> Option<(Seq<char>, Seq<char>, bool)> {
    let i = find_char(spec, ':');
    if i >= spec.len() {
        None
    } else {
        let name = trim(spec.take(i));
        let rest = spec.skip(i + 1);
        let j = find_char(rest, ':');
        let value = trim(rest.take(j));
        let inline = j < rest.len() && eq_ignore_ascii_case(trim(rest.skip(j + 1)), true_word());
        if name.len() == 0 {
            None
        } else {
            Some((name, value, inline))
        }
    }
}

/// Parses `Name:Value[:inline]` into an embed field; `None` for a malformed one.
pub fn parse_field(spec: &str) -> (r: Option<EmbedField>)
    ensures
        r matches Some(f) ==> field_parts(spec@) == Some(f@),
        r is None ==> field_parts(spec@) is None,
{
    let v = chars_of(spec);
    let n = v.len();
    let i = find_in_range(&v, 0, n, ':');
    let ghost s = spec@;
    assert(v@.subrange(0, n as int) =~= s);
    proof {
        lemma_find_char(s, ':');
    }
    if i >= n {
        return None;
    }
    let (na, nb) = trim_range(&v, 0, i);
    assert(s.take(i as int) =~= v@.subrange(0, i as int));
    let ghost rest = s.skip(i + 1);
    assert(rest =~= v@.subrange(i + 1, n as int));
    let j = find_in_range(&v, i + 1, n, ':');
    proof {
        lemma_find_char(rest, ':');
    }
    let (va, vb) = trim_range(&v, i + 1, j);
    assert(rest.take(j - (i + 1)) =~= v@.subrange(i + 1, j as int));
    let inline = if j < n {
        let (ta, tb) = trim_range(&v, j + 1, n);
        assert(rest.skip(j - (i + 1) + 1) =~= v@.subrange(j + 1, n as int));
        range_eq_ignore_ascii_case(&v, ta, tb, &vec!['t', 'r', 'u', 'e'])
    } else {
        false
    };
    if na == nb {
        return None;
    }
    let name = string_of_range(spec, &v, na, nb);
    let value = string_of_range(spec, &v, va, vb);
    Some(EmbedField { name, value, inline })
}

/// The command line of the notifier, as the library reads it.
pub struct Args {
    /// Message text (the `content`).
    pub message: Option<String>,
    /// `info`, `success`, `warning` or `error`; picks the embed colour.
    pub level: String,
    pub title: Option<String>,
    /// Embed description; the message stands in when it is absent.
    pub description: Option<String>,
    /// Embed fields as `Name:Value[:inline]`.
    pub field: Vec<String>,
    /// `here`, `everyone` or an ID.
    pub mention: Option<String>,
    pub footer: Option<String>,
    /// Whether the embed carries the current time.
    pub timestamp: bool,
    pub webhook_url: Option<String>,
    /// Path of the `.env` file to read the webhook URL from.
    pub env_file: Option<String>,
}

/// The embed of a notification.
pub struct Embed {
    pub color: i64,
    pub title: Option<String>,
    pub description: Option<String>,
    pub timestamp: Option<String>,
    pub footer: Option<String>,
    /// Fields in the order given.
    pub fields: Vec<EmbedField>,
}

/// What is posted to the webhook: `content` and at most one embed.
pub struct Payload {
    pub content: Option<String>,
    pub embed: Option<Embed>,
}

/// Mathematical model of an embed.
pub ghost struct EmbedModel {
    pub color: i64,
    pub title: Option<Seq<char>>,
    pub description: Option<Seq<char>>,
    pub timestamp: Option<Seq<char>>,
    pub footer: Option<Seq<char>>,
    pub fields: Seq<(Seq<char>, Seq<char>, bool)>,
}

/// Mathematical model of a payload.
pub ghost struct PayloadModel {
    pub content: Option<Seq<char>>,
    pub embed: Option<EmbedModel>,
}

impl View for Embed {
    type V = EmbedModel;

    open spec fn view(&self) -> EmbedModel {
        EmbedModel {
            color: self.color,
            title: self.title.deep_view(),
            description: self.description.deep_view(),
            timestamp: self.timestamp.deep_view(),
            footer: self.footer.deep_view(),
            fields: self.fields@.map_values(|f: EmbedField| f@),
        }
    }
}

impl View for Payload {
    type V = PayloadModel;

    open spec fn view(&self) -> PayloadModel {
        PayloadModel {
            content: self.content.deep_view(),
            embed: match self.embed {
                Some(e) => Some(e@),
                None => None,
            },
        }
    }
}

/// Fields described by `specs`, malformed ones left out, order kept.
pub open spec fn parsed_fields(specs: Seq<Seq<char>>) -> Seq<(Seq<char>, Seq<char>, bool)>
    decreases specs.len(),
{
    if specs.len() == 0 {
        seq![]
    } else {
        let before = parsed_fields(specs.drop_last());
        match field_parts(specs.last()) {
            Some(f) => before.push(f),
            None => before,
        }
    }
}

/// The fields parsed from `specs` are exactly the well-formed specs, in their order,
/// each parsed: a filter-map of `field_parts` over `specs`, as many as there are
/// well-formed specs.
pub proof fn lemma_parsed_fields_are_filter_map(specs: Seq<Seq<char>>)
    ensures
        parsed_fields(specs) == specs.filter_map(|spec: Seq<char>| field_parts(spec)),
        parsed_fields(specs) == specs.filter(|spec: Seq<char>| field_parts(spec) is Some).map_values(
            |spec: Seq<char>| field_parts(spec).unwrap(),
        ),
        parsed_fields(specs).len() == specs.filter(|spec: Seq<char>| field_parts(spec) is Some).len(),
    decreases specs.len(),
{
    let f = |spec: Seq<char>| field_parts(spec);
    let pred = |spec: Seq<char>| field_parts(spec) is Some;
    let g = |spec: Seq<char>| field_parts(spec).unwrap();
    reveal_with_fuel(Seq::<Seq<char>>::filter, 1);
    if specs.len() > 0 {
        lemma_parsed_fields_are_filter_map(specs.drop_last());
        let before = specs.drop_last().filter(pred);
        if pred(specs.last()) {
            assert(specs.filter(pred) == before.push(specs.last()));
            assert(before.push(specs.last()).map_values(g) =~= before.map_values(g).push(
                g(specs.last()),
            ));
            assert(specs.drop_last().filter_map(f) + seq![field_parts(specs.last()).unwrap()]
                =~= specs.drop_last().filter_map(f).push(field_parts(specs.last()).unwrap()));
        } else {
            assert(specs.filter(pred) == before);
        }
    } else {
        assert(specs.filter(pred) =~= Seq::<Seq<char>>::empty());
        assert(specs.filter_map(f) =~= Seq::<(Seq<char>, Seq<char>, bool)>::empty());
    }
}

/// An embed is sent exactly when an embed option is given (a title, a description,
/// a field, `--timestamp`, a footer, or a level other than `info`), and it carries
/// what those options give: the title, the description (else the message), the
/// timestamp, the footer, the colour of the level and every well-formed field.
pub proof fn lemma_embed_carries_options(args: Args, timestamp: Option<Seq<char>>)
    ensures
        payload_of(args, timestamp).embed is Some <==> (args.title is Some || args.description
            is Some || args.field@.len() > 0 || args.timestamp || args.footer is Some
            || args.level@ != seq!['i', 'n', 'f', 'o']),
        payload_of(args, timestamp).embed matches Some(e) ==> {
            &&& e.title == args.title.deep_view()
            &&& e.description == (if args.description is Some {
                args.description.deep_view()
            } else {
                args.message.deep_view()
            })
            &&& e.timestamp == (if args.timestamp { timestamp } else { None })
            &&& e.footer == args.footer.deep_view()
            &&& e.color == level_color_of(args.level@)
            &&& e.fields == args.field.deep_view().filter_map(|spec: Seq<char>| field_parts(spec))
        },
        args.timestamp ==> (payload_of(args, timestamp).embed matches Some(e) && e.timestamp
            == timestamp),
        args.footer is Some ==> payload_of(args, timestamp).embed is Some,
        args.description is Some ==> payload_of(args, timestamp).embed is Some,
{
    lemma_parsed_fields_are_filter_map(args.field.deep_view());
    assert(args.field.deep_view().len() == args.field@.len());
}

/// Whether any embed option is given (a level other than `info` counts).
pub open spec fn wants_embed(args: Args) -> bool {
    ||| args.title is Some
    ||| args.description is Some
    ||| args.field@.len() > 0
    ||| args.timestamp
    ||| args.footer is Some
    ||| args.level@ != info_word()
}

/// The `content`: the message, with the mention and a space in front when one is given.
pub open spec fn content_of(args: Args) -> Option<Seq<char>> {
    match args.mention {
        Some(m) => {
            let ms = mention_text(m@, lowercase(m@));
            Some(
                match args.message {
                    Some(c) => ms + seq![' '] + c@,
                    None => ms,
                },
            )
        },
        None => args.message.deep_view(),
    }
}

/// The embed for `args`, with `timestamp` as its time.
pub open spec fn embed_of(args: Args, timestamp: Option<Seq<char>>) -> EmbedModel {
    EmbedModel {
        color: level_color_of(args.level@),
        title: args.title.deep_view(),
        description: if args.description is Some {
            args.description.deep_view()
        } else {
            args.message.deep_view()
        },
        timestamp: if args.timestamp { timestamp } else { None },
        footer: args.footer.deep_view(),
        fields: parsed_fields(args.field.deep_view()),
    }
}

/// The payload for `args`: content only, unless an embed option asks for an embed.
pub open spec fn payload_of(args: Args, timestamp: Option<Seq<char>>) -> PayloadModel {
    PayloadModel {
        content: content_of(args),
        embed: if wants_embed(args) { Some(embed_of(args, timestamp)) } else { None },
    }
}

fn clone_text(o: &Option<String>) -> (r: Option<String>)
    ensures
        r.deep_view() == o.deep_view(),
{
    match o {
        Some(s) => Some(s.clone()),
        None => None,
    }
}

/// Whether the level is `info`.
pub fn is_info_level(level: &str) -> (r: bool)
    ensures
        r == (level@ == info_word()),
{
    str_equals(level, &vec!['i', 'n', 'f', 'o'])
}

/// The embed fields that `specs` describe, malformed ones left out.
pub fn parse_fields(specs: &Vec<String>) -> (r: Vec<EmbedField>)
    ensures
        r@.map_values(|f: EmbedField| f@) == parsed_fields(specs.deep_view()),
        r@.map_values(|f: EmbedField| f@) == specs.deep_view().filter_map(
            |spec: Seq<char>| field_parts(spec),
        ),
        r@.len() == specs.deep_view().filter(|spec: Seq<char>| field_parts(spec) is Some).len(),
{
    proof {
        lemma_parsed_fields_are_filter_map(specs.deep_view());
    }
    let mut out: Vec<EmbedField> = Vec::new();
    let ghost all = specs.deep_view();
    let mut i: usize = 0;
    while i < specs.len()
        invariant
            i <= specs@.len(),
            all == specs.deep_view(),
            all.len() == specs@.len(),
            out@.map_values(|f: EmbedField| f@) == parsed_fields(all.take(i as int)),
        decreases specs@.len() - i,
    {
        let parsed = parse_field(specs[i].as_str());
        assert(all.take(i + 1).drop_last() =~= all.take(i as int));
        assert(all.take(i + 1).last() == specs@[i as int]@);
        match parsed {
            Some(f) => {
                out.push(f);
                assert(out@.map_values(|f: EmbedField| f@) =~= parsed_fields(all.take(i as int)).push(
                    f@,
                ));
            },
            None => {},
        }
        i = i + 1;
    }
    assert(all.take(specs@.len() as int) =~= all);
    out
}

/// Builds the payload for `args` with `timestamp` as the embed's time (used only
/// when `args.timestamp` asks for one).
pub fn assemble_payload(args: &Args, timestamp: Option<String>) -> (r: Payload)
    ensures
        r@ == payload_of(*args, timestamp.deep_view()),
        r.embed is Some <==> (args.title is Some || args.description is Some || args.field@.len() > 0
            || args.timestamp || args.footer is Some || args.level@ != seq!['i', 'n', 'f', 'o']),
        args.timestamp ==> (r.embed matches Some(e) && e.timestamp.deep_view()
            == timestamp.deep_view()),
        args.footer is Some ==> (r.embed matches Some(e) && e.footer.deep_view()
            == args.footer.deep_view()),
        args.title is Some ==> (r.embed matches Some(e) && e.title.deep_view()
            == args.title.deep_view()),
        args.description is Some ==> (r.embed matches Some(e) && e.description.deep_view()
            == args.description.deep_view()),
        args.description is None ==> (r.embed matches Some(e) ==> e.description.deep_view()
            == args.message.deep_view()),
        r.embed matches Some(e) ==> e.fields@.map_values(|f: EmbedField| f@)
            == args.field.deep_view().filter_map(|spec: Seq<char>| field_parts(spec)),
{
    let has_embed = args.title.is_some() || args.description.is_some() || args.field.len() > 0
        || args.timestamp || args.footer.is_some() || !is_info_level(args.level.as_str());

    let content = match &args.mention {
        Some(m) => {
            let mut ms = mention_str(m.as_str());
            match &args.message {
                Some(c) => {
                    proof {
                        reveal_strlit(" ");
                    }
                    ms.append(" ");
                    ms.append(c.as_str());
                },
                None => {},
            }
            Some(ms)
        },
        None => clone_text(&args.message),
    };
    assert(has_embed == wants_embed(*args));
    assert(content.deep_view() == content_of(*args));

    proof {
        lemma_parsed_fields_are_filter_map(args.field.deep_view());
    }
    if !has_embed {
        return Payload { content, embed: None };
    }
    let description = if args.description.is_some() {
        clone_text(&args.description)
    } else {
        clone_text(&args.message)
    };
    let embed = Embed {
        color: level_color(args.level.as_str()),
        title: clone_text(&args.title),
        description,
        timestamp: if args.timestamp { timestamp } else { None },
        footer: clone_text(&args.footer),
        fields: parse_fields(&args.field),
    };
    Payload { content, embed: Some(embed) }
}

/// Builds the payload for `args`; with `args.timestamp` the embed carries the
/// current UTC time as `YYYY-MM-DDTHH:MM:SSZ`.
pub fn build_payload(args: &Args) -> (r: Payload)
    ensures
        r.embed is Some <==> (args.title is Some || args.description is Some || args.field@.len() > 0
            || args.timestamp || args.footer is Some || args.level@ != seq!['i', 'n', 'f', 'o']),
        args.timestamp ==> (r.embed matches Some(e) && e.timestamp is Some),
        args.description is Some ==> (r.embed matches Some(e) && e.description.deep_view()
            == args.description.deep_view()),
        !args.timestamp ==> r@ == payload_of(*args, None),
        args.timestamp ==> exists|reading: Option<u64>, t: (i64, u32, u32, u32, u32, u32)|
            is_utc_civil_time(reading_epoch(reading), t) && r@ == payload_of(
                *args,
                Some(rfc3339_text(t)),
            ),
{
    if args.timestamp {
        let now = now_utc_rfc3339();
        assemble_payload(args, Some(now))
    } else {
        assemble_payload(args, None)
    }
}

/// Whether there is anything to send: a message, a mention, or any embed option.
pub fn has_content(args: &Args) -> (r: bool)
    ensures
        r == (args.message is Some || args.mention is Some || wants_embed(*args)),
        r <==> (args.message is Some || args.mention is Some || args.title is Some
            || args.description is Some || args.field@.len() > 0 || args.timestamp
            || args.footer is Some || args.level@ != seq!['i', 'n', 'f', 'o']),
{
    args.message.is_some() || args.title.is_some() || args.description.is_some()
        || args.field.len() > 0 || args.timestamp || args.footer.is_some()
        || args.mention.is_some() || !is_info_level(args.level.as_str())
}

} // verus!
