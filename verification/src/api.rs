//! What the usage endpoint reports and how a reading is brought to scale.

use crate::clock::Timestamp;
use crate::double::{
    is_close, larger, less, over, positive_numbers_have_steps, quotients_are_close, ratio_value,
    steps_of, whole_numbers_are_exact, zero_is_least, Double, Value,
};
use crate::ranking::{is_ranking, rank, ranking};
use crate::table::{text_below, Key, Table};
use crate::text::{decimal, from_chars, parse_u64, parsed_u64, push_decimal, same, to_chars};
use vstd::arithmetic::power2::{lemma_pow2_pos, pow2};
use vstd::prelude::*;

verus! {

pub const BASE_URL: &'static str = "https://api.anthropic.com";

const PATH: &'static str = "/api/oauth/usage";

/// The value of the `anthropic-beta` header.
pub const BETA: &'static str = "oauth-2025-04-20";

/// Remembers whether the endpoint reports percentages. A small reading alone
/// does not tell: it may be a percentage or a fraction. There is one latch for
/// all reports; it cannot be copied, and once it is set it stays so.
#[derive(Debug)]
pub struct ScaleLatch {
    percentage: bool,
}

impl View for ScaleLatch {
    type V = bool;

    /// Whether the latch is set.
    closed spec fn view(&self) -> bool {
        self.percentage
    }
}

impl Default for ScaleLatch {
    fn default() -> (r: ScaleLatch)
        ensures
            !r@,
    {
        ScaleLatch { percentage: false }
    }
}

impl ScaleLatch {
    /// A latch that is already set when `percentage` is.
    pub fn new(percentage: bool) -> (r: ScaleLatch)
        ensures
            r@ == percentage,
    {
        ScaleLatch { percentage }
    }

    /// Whether the endpoint is known to report percentages.
    pub fn is_percentage(&self) -> (r: bool)
        ensures
            r == self@,
    {
        self.percentage
    }

    fn latch_percentage(&mut self)
        ensures
            final(self)@,
    {
        self.percentage = true;
    }
}

/// How far a quota is used up, and when it is renewed if that is known.
#[derive(Clone, Copy, Debug)]
pub struct Window {
    pub utilization: Double,
    pub resets_at: Option<Timestamp>,
}

/// What a `Window` says.
pub struct Reading {
    pub utilization: Value,
    pub resets_at: Option<Timestamp>,
}

impl View for Window {
    type V = Reading;

    open spec fn view(&self) -> Reading {
        Reading { utilization: self.utilization@, resets_at: self.resets_at }
    }
}

/// A further field of a report.
#[derive(Clone, Copy, Debug)]
pub enum Extra {
    /// An object: its `utilization` where that is a number, and its `resets_at`
    /// where that is missing, null or a time.
    Object { utilization: Option<Double>, resets_at: Option<Option<Timestamp>> },
    /// Anything else, with the window that it stands for, if it does.
    Other { window: Option<Window> },
}

/// What an `Extra` says.
pub enum Field {
    Object { utilization: Option<Value>, resets_at: Option<Option<Timestamp>> },
    Other { window: Option<Reading> },
}

pub open spec fn value_of(d: Option<Double>) -> Option<Value> {
    match d {
        Some(x) => Some(x@),
        None => None,
    }
}

pub open spec fn reading_of(w: Option<Window>) -> Option<Reading> {
    match w {
        Some(x) => Some(x@),
        None => None,
    }
}

impl View for Extra {
    type V = Field;

    open spec fn view(&self) -> Field {
        match *self {
            Extra::Object { utilization, resets_at } => Field::Object {
                utilization: value_of(utilization),
                resets_at,
            },
            Extra::Other { window } => Field::Other { window: reading_of(window) },
        }
    }
}

/// A report of the usage endpoint.
#[derive(Clone, Debug)]
pub struct UsageResponse {
    /// The session.
    pub five_hour: Option<Window>,
    /// The week.
    pub seven_day: Option<Window>,
    /// Every other field, such as those of single models.
    pub extra: Table<String, Extra>,
}

/// What a `UsageResponse` says, the further fields in the order of their names.
pub struct Usage {
    pub five_hour: Option<Reading>,
    pub seven_day: Option<Reading>,
    pub names: Seq<Seq<char>>,
    pub fields: Seq<Field>,
}

impl View for UsageResponse {
    type V = Usage;

    open spec fn view(&self) -> Usage {
        Usage {
            five_hour: reading_of(self.five_hour),
            seven_day: reading_of(self.seven_day),
            names: self.extra.keys(),
            fields: self.extra.values().map_values(|e: Extra| e@),
        }
    }
}

/// The utilization that a field reports.
pub open spec fn field_utilization(f: Field) -> Option<Value> {
    match f {
        Field::Object { utilization, .. } => utilization,
        Field::Other { .. } => None,
    }
}

/// The larger of `m` and a reading, if there is one.
pub open spec fn raised(m: Value, u: Option<Value>) -> Value {
    match u {
        Some(v) => larger(m, v),
        None => m,
    }
}

pub open spec fn utilization_of(r: Option<Reading>) -> Option<Value> {
    match r {
        Some(x) => Some(x.utilization),
        None => None,
    }
}

/// The largest of `m` and what the fields report.
pub open spec fn raised_by_all(m: Value, fields: Seq<Field>) -> Value
    decreases fields.len(),
{
    if fields.len() == 0 {
        m
    } else {
        raised(raised_by_all(m, fields.drop_last()), field_utilization(fields.last()))
    }
}

pub open spec fn zero() -> Value {
    ratio_value(0, 1)
}

/// The largest utilization of a report, at least zero.
pub open spec fn peak(u: Usage) -> Value {
    raised_by_all(
        raised(raised(zero(), utilization_of(u.five_hour)), utilization_of(u.seven_day)),
        u.fields,
    )
}

/// A percentage as a fraction.
pub open spec fn hundredth(v: Value) -> Value {
    over(v, ratio_value(100, 1))
}

pub open spec fn scaled_reading(r: Option<Reading>) -> Option<Reading> {
    match r {
        Some(x) => Some(Reading { utilization: hundredth(x.utilization), ..x }),
        None => None,
    }
}

pub open spec fn scaled_field(f: Field) -> Field {
    match f {
        Field::Object { utilization: Some(v), resets_at } => if hundredth(v) is Fin {
            Field::Object { utilization: Some(hundredth(v)), resets_at }
        } else {
            f
        },
        _ => f,
    }
}

/// A report in percentages as one in fractions.
pub open spec fn scaled(u: Usage) -> Usage {
    Usage {
        five_hour: scaled_reading(u.five_hour),
        seven_day: scaled_reading(u.seven_day),
        names: u.names,
        fields: u.fields.map_values(|f: Field| scaled_field(f)),
    }
}

/// Whether a report is in percentages: it was so before, or a reading is too
/// large for a fraction.
pub open spec fn in_percent(before: bool, u: Usage) -> bool {
    before || less(ratio_value(15, 10), peak(u))
}

/// The higher of the two quotas.
pub open spec fn headline(u: Usage) -> Value {
    larger(
        match u.five_hour {
            Some(r) => r.utilization,
            None => zero(),
        },
        match u.seven_day {
            Some(r) => r.utilization,
            None => zero(),
        },
    )
}

fn scale_window(w: Option<Window>) -> (r: Option<Window>)
    ensures
        reading_of(r) == scaled_reading(reading_of(w)),
{
    match w {
        Some(x) => Some(
            Window {
                utilization: x.utilization.div(Double::from_u64(100)),
                resets_at: x.resets_at,
            },
        ),
        None => None,
    }
}

fn scale_extra(e: Extra) -> (r: Extra)
    ensures
        r@ == scaled_field(e@),
{
    match e {
        Extra::Object { utilization: Some(v), resets_at } => {
            let fraction = v.div(Double::from_u64(100));
            if fraction.is_finite() {
                Extra::Object { utilization: Some(fraction), resets_at }
            } else {
                e
            }
        },
        _ => e,
    }
}

impl UsageResponse {
    /// Brings the report to fractions, once the endpoint is known to report
    /// percentages.
    pub fn normalize_scale(&mut self, latch: &mut ScaleLatch)
        ensures
            final(latch)@ == in_percent(old(latch)@, old(self)@),
            if in_percent(old(latch)@, old(self)@) {
                final(self)@ == scaled(old(self)@)
            } else {
                *final(self) == *old(self)
            },
            final(self)@ == settled(old(latch)@, old(self)@),
            old(latch)@ ==> final(latch)@,
            final(self).five_hour is Some <==> old(self).five_hour is Some,
            final(self).seven_day is Some <==> old(self).seven_day is Some,
            final(self).five_hour matches Some(w) ==> w.resets_at == old(
                self,
            ).five_hour->0.resets_at,
            final(self).seven_day matches Some(w) ==> w.resets_at == old(
                self,
            ).seven_day->0.resets_at,
            final(self).extra.keys() == old(self).extra.keys(),
    {
        let ghost before = self@;
        if !latch.is_percentage() {
            if Double::ratio(15, 10).lt(self.max_utilization()) {
                latch.latch_percentage();
            } else {
                return;
            }
        }
        self.scale_down_by_100();
        assert(self@.five_hour == scaled_reading(before.five_hour));
        assert(self@.seven_day == scaled_reading(before.seven_day));
        assert(self@.names == before.names);
    }

    fn scale_down_by_100(&mut self)
        ensures
            final(self)@ == scaled(old(self)@),
    {
        self.five_hour = scale_window(self.five_hour);
        self.seven_day = scale_window(self.seven_day);
        let mut table: Table<String, Extra> = Table::new();
        std::mem::swap(&mut table, &mut self.extra);
        let ghost names = table.keys();
        let ghost start = table.values();
        let (keys, values) = table.into_parts();
        let mut fields: Vec<Extra> = Vec::new();
        let mut i: usize = 0;
        while i < values.len()
            invariant
                i <= values.len(),
                values@ == start,
                fields.len() == i,
                forall|k: int| 0 <= k < i ==> (#[trigger] fields@[k])@ == scaled_field(start[k]@),
            decreases values.len() - i,
        {
            fields.push(scale_extra(values[i]));
            i = i + 1;
        }
        self.extra = Table::from_parts(keys, fields);
        assert(self@.fields =~= scaled(old(self)@).fields);
        assert(self@.names =~= names);
    }

    fn max_utilization(&self) -> (r: Double)
        ensures
            r@ == peak(self@),
    {
        let mut m = Double::ratio(0, 1);
        if let Some(w) = self.five_hour {
            m = m.max(w.utilization);
        }
        if let Some(w) = self.seven_day {
            m = m.max(w.utilization);
        }
        let ghost base = m@;
        let ghost fields = self@.fields;
        let n: usize = self.extra.len();
        let mut i: usize = 0;
        while i < n
            invariant
                i <= n,
                n == self.extra.values().len(),
                fields == self@.fields,
                m@ == raised_by_all(base, fields.take(i as int)),
            decreases n - i,
        {
            assert(fields.take(i + 1).drop_last() =~= fields.take(i as int));
            assert(fields[i as int] == self.extra.values()[i as int]@);
            if let Extra::Object { utilization: Some(u), .. } = self.extra.value_at(i) {
                m = m.max(*u);
            }
            i = i + 1;
        }
        assert(fields.take(n as int) =~= fields);
        m
    }

    /// The higher of session and week.
    pub fn headline_fraction(&self) -> (r: Double)
        ensures
            r@ == headline(self@),
    {
        let s = match self.five_hour {
            Some(w) => w.utilization,
            None => Double::ratio(0, 1),
        };
        let w = match self.seven_day {
            Some(w) => w.utilization,
            None => Double::ratio(0, 1),
        };
        s.max(w)
    }
}

/// The upper case of a character.
pub uninterp spec fn uppercase(c: char) -> Seq<char>;

/// `char::to_uppercase` of std: the upper case of a character, which may be more
/// than one character. That of a letter from `a` to `z` is the letter from `A`
/// to `Z`; the other characters of ASCII stay as they are.
#[verifier::external_body]
fn to_upper(c: char) -> (r: String)
    ensures
        r@ == uppercase(c),
        97 <= c as int <= 122 ==> r@ == seq![(c as int - 32) as char],
        c as int <= 127 && !(97 <= c as int <= 122) ==> r@ == seq![c],
{
    c.to_uppercase().to_string()
}

/// The capital of a letter from `a` to `z`; other characters stay as they are.
pub open spec fn capital(c: char) -> char {
    if 97 <= c as int <= 122 {
        (c as int - 32) as char
    } else {
        c
    }
}

/// A character as it stands at the beginning of a word.
pub open spec fn raised_initial(c: char) -> Seq<char> {
    if c as int <= 127 {
        seq![capital(c)]
    } else {
        uppercase(c)
    }
}

/// A name with underscores as one with spaces, each word capitalized.
pub open spec fn humanized(s: Seq<char>) -> Seq<char>
    decreases s.len(),
{
    if s.len() == 0 {
        seq![]
    } else {
        let c = s.last();
        humanized(s.drop_last()) + if c == '_' {
            seq![' ']
        } else if s.len() == 1 || s[s.len() - 2] == '_' {
            raised_initial(c)
        } else {
            seq![c]
        }
    }
}

/// The name of a model as it is shown: `new_model` as `New Model`.
pub fn humanize_model(suffix: &str) -> (r: String)
    ensures
        r@ == humanized(suffix@),
{
    let chars = to_chars(suffix);
    let mut out = String::new();
    let mut i: usize = 0;
    while i < chars.len()
        invariant
            i <= chars.len(),
            chars@ == suffix@,
            out@ == humanized(chars@.take(i as int)),
        decreases chars.len() - i,
    {
        let c = chars[i];
        assert(chars@.take(i + 1).drop_last() =~= chars@.take(i as int));
        if c == '_' {
            out.push(' ');
        } else if i == 0 || chars[i - 1] == '_' {
            out.append(to_upper(c).as_str());
        } else {
            out.push(c);
        }
        assert(out@ =~= humanized(chars@.take(i + 1)));
        i = i + 1;
    }
    assert(chars@.take(i as int) =~= suffix@);
    out
}

/// Nothing but characters of ASCII.
pub open spec fn is_plain(s: Seq<char>) -> bool {
    forall|i: int| 0 <= i < s.len() ==> (#[trigger] s[i]) as int <= 127
}

/// A plain name with spaces for underscores and capitals at the beginning of its
/// words.
pub open spec fn capitalized(s: Seq<char>) -> Seq<char> {
    Seq::new(
        s.len(),
        |i: int|
            if s[i] == '_' {
                ' '
            } else if i == 0 || s[i - 1] == '_' {
                capital(s[i])
            } else {
                s[i]
            },
    )
}

/// A plain name is shown with spaces for underscores and capitals at the
/// beginning of its words, and is otherwise as it was.
pub proof fn plain_names_are_capitalized(s: Seq<char>)
    requires
        is_plain(s),
    ensures
        humanized(s) == capitalized(s),
    decreases s.len(),
{
    if s.len() > 0 {
        let rest = s.drop_last();
        assert forall|i: int| 0 <= i < rest.len() implies (#[trigger] rest[i]) as int <= 127 by {
            assert(s[i] == rest[i]);
        }
        plain_names_are_capitalized(rest);
        assert(s[s.len() - 1] == s.last());
    }
    assert(humanized(s) =~= capitalized(s));
}

/// The window that a field stands for.
pub open spec fn decoded(f: Field) -> Option<Reading> {
    match f {
        Field::Object { utilization: Some(utilization), resets_at: Some(resets_at) } => Some(
            Reading { utilization, resets_at },
        ),
        Field::Object { .. } => None,
        Field::Other { window } => window,
    }
}

/// The model and window of a field, where it is that of a model.
pub open spec fn model_of(name: Seq<char>, f: Field) -> Option<(Seq<char>, Reading)> {
    if "seven_day_"@.is_prefix_of(name) {
        match decoded(f) {
            Some(r) => Some((humanized(name.skip("seven_day_"@.len() as int)), r)),
            None => None,
        }
    } else {
        None
    }
}

/// The models of a report, in the order of their fields.
pub open spec fn models(names: Seq<Seq<char>>, fields: Seq<Field>) -> Seq<(Seq<char>, Reading)>
    decreases fields.len(),
{
    if fields.len() == 0 {
        seq![]
    } else {
        let rest = models(names, fields.drop_last());
        match model_of(names[fields.len() - 1], fields.last()) {
            Some(m) => rest.push(m),
            None => rest,
        }
    }
}

pub open spec fn labels(list: Seq<(Seq<char>, Reading)>) -> Seq<Seq<char>> {
    list.map_values(|m: (Seq<char>, Reading)| m.0)
}

/// Models in the order of their labels, those with one label as they stand.
pub open spec fn by_label(list: Seq<(Seq<char>, Reading)>) -> Seq<(Seq<char>, Reading)> {
    let order = ranking::<String>(labels(list));
    Seq::new(list.len(), |i: int| list[order[i] as int])
}

pub open spec fn models_of(v: Seq<(String, Window)>) -> Seq<(Seq<char>, Reading)> {
    v.map_values(|m: (String, Window)| (m.0@, m.1@))
}

fn decode(e: &Extra) -> (r: Option<Window>)
    ensures
        reading_of(r) == decoded(e@),
{
    match *e {
        Extra::Object { utilization: Some(utilization), resets_at: Some(resets_at) } => Some(
            Window { utilization, resets_at },
        ),
        Extra::Object { .. } => None,
        Extra::Other { window } => window,
    }
}

/// What follows `prefix` in `s`, if `s` begins with it.
fn without_prefix(s: &str, prefix: &str) -> (r: Option<String>)
    ensures
        match r {
            Some(rest) => prefix@.is_prefix_of(s@) && rest@ == s@.skip(prefix@.len() as int),
            None => !prefix@.is_prefix_of(s@),
        },
{
    let chars = to_chars(s);
    let n: usize = to_chars(prefix).len();
    if chars.len() < n {
        return None;
    }
    let head = from_chars(&chars, 0, n);
    assert(head@ =~= s@.take(n as int));
    if same(head.as_str(), prefix) {
        let rest = from_chars(&chars, n, chars.len());
        assert(rest@ =~= s@.skip(n as int));
        assert(prefix@.is_prefix_of(s@));
        Some(rest)
    } else {
        assert(prefix@.is_prefix_of(s@) ==> head@ =~= prefix@);
        None
    }
}

impl UsageResponse {
    fn collect_models(&self) -> (r: Vec<(String, Window)>)
        ensures
            models_of(r@) == models(self@.names, self@.fields),
    {
        let ghost names = self@.names;
        let ghost fields = self@.fields;
        let n: usize = self.extra.len();
        let mut out: Vec<(String, Window)> = Vec::new();
        let mut i: usize = 0;
        assert(models_of(out@) =~= models(names, fields.take(0)));
        while i < n
            invariant
                i <= n,
                n == self.extra.values().len(),
                n == self.extra.keys().len(),
                names == self@.names,
                fields == self@.fields,
                models_of(out@) == models(names, fields.take(i as int)),
            decreases n - i,
        {
            assert(fields.take(i + 1).drop_last() =~= fields.take(i as int));
            assert(fields[i as int] == self.extra.values()[i as int]@);
            let name = self.extra.key_at(i);
            let field = self.extra.value_at(i);
            if let Some(suffix) = without_prefix(name.as_str(), "seven_day_") {
                if let Some(w) = decode(field) {
                    let label = humanize_model(suffix.as_str());
                    let ghost before = out@;
                    out.push((label, w));
                    assert(models_of(out@) =~= models_of(before).push((label@, w@)));
                }
            }
            i = i + 1;
        }
        assert(fields.take(n as int) =~= fields);
        out
    }

    /// The windows of single models, sorted by the label of the model.
    pub fn per_model(&self) -> (r: Vec<(String, Window)>)
        ensures
            models_of(r@) == by_label(models(self@.names, self@.fields)),
            forall|i: int, j: int|
                0 <= i < j < r.len() ==> !text_below(
                    (#[trigger] r@[j]).0@,
                    (#[trigger] r@[i]).0@,
                ),
    {
        let all = self.collect_models();
        let ghost list = models_of(all@);
        let mut keys: Vec<String> = Vec::new();
        let mut i: usize = 0;
        while i < all.len()
            invariant
                i <= all.len(),
                keys.len() == i,
                forall|k: int| 0 <= k < i ==> (#[trigger] keys@[k])@ == all@[k].0@,
            decreases all.len() - i,
        {
            keys.push(all[i].0.clone());
            i = i + 1;
        }
        let ghost names = keys@.map_values(|k: String| k@);
        assert(names =~= labels(list));
        let order = rank(&keys);
        let mut out: Vec<(String, Window)> = Vec::new();
        let mut k: usize = 0;
        while k < order.len()
            invariant
                k <= order.len(),
                is_ranking::<String>(order@, names),
                names.len() == all.len(),
                out.len() == k,
                forall|j: int|
                    0 <= j < k ==> (#[trigger] out@[j]).0@ == all@[order@[j] as int].0@ && out@[j].1@
                        == all@[order@[j] as int].1@,
            decreases order.len() - k,
        {
            assert(order@[k as int] < names.len());
            let m = &all[order[k]];
            out.push((m.0.clone(), m.1));
            k = k + 1;
        }
        proof {
            assert(models_of(out@) =~= by_label(list));
            assert forall|i: int, j: int| 0 <= i < j < out.len() implies !text_below(
                (#[trigger] out@[j]).0@,
                (#[trigger] out@[i]).0@,
            ) by {
                let a = names[order@[i] as int];
                let b = names[order@[j] as int];
                assert(out@[i].0@ == a && out@[j].0@ == b);
                String::irreflexive(a);
                if text_below(b, a) && text_below(a, b) {
                    String::transitive(a, b, a);
                }
            }
        }
        out
    }
}

/// Why a report could not be had.
#[derive(Debug)]
pub enum FetchError {
    Unauthorized,
    /// The endpoint may be asked again after that many seconds, if it says so.
    RateLimited { retry_after: Option<u64> },
    Network(String),
    Decode(String),
    Server(u16),
}

/// A whole number of seconds as a duration is shown.
pub open spec fn seconds_shown(n: nat) -> Seq<char> {
    if n == 0 {
        "0ns"@
    } else {
        decimal(n) + "s"@
    }
}

/// What an error says.
pub open spec fn fetch_message(e: FetchError) -> Seq<char> {
    match e {
        FetchError::Unauthorized => "unauthorized — token expired or revoked"@,
        FetchError::RateLimited { retry_after: Some(n) } => "rate limited (retry after Some("@
            + seconds_shown(n as nat) + "))"@,
        FetchError::RateLimited { retry_after: None } => "rate limited (retry after None)"@,
        FetchError::Network(why) => "network error: "@ + why@,
        FetchError::Decode(why) => "decode error: "@ + why@,
        FetchError::Server(code) => "server error: HTTP "@ + decimal(code as nat),
    }
}

impl FetchError {
    /// What the error says.
    pub fn message(&self) -> (r: String)
        ensures
            r@ == fetch_message(*self),
    {
        match self {
            FetchError::Unauthorized => "unauthorized — token expired or revoked".to_owned(),
            FetchError::RateLimited { retry_after: Some(n) } => {
                let mut out = "rate limited (retry after Some(".to_owned();
                if *n == 0 {
                    out.append("0ns");
                } else {
                    push_decimal(&mut out, *n);
                    out.append("s");
                }
                out.append("))");
                assert(out@ =~= fetch_message(*self));
                out
            },
            FetchError::RateLimited { retry_after: None } =>
                "rate limited (retry after None)".to_owned(),
            FetchError::Network(why) => {
                let mut out = "network error: ".to_owned();
                out.append(why.as_str());
                out
            },
            FetchError::Decode(why) => {
                let mut out = "decode error: ".to_owned();
                out.append(why.as_str());
                out
            },
            FetchError::Server(code) => {
                let mut out = "server error: HTTP ".to_owned();
                push_decimal(&mut out, *code as u64);
                out
            },
        }
    }
}

/// The address of the usage endpoint under `base_url`.
pub fn usage_url(base_url: &str) -> (r: String)
    ensures
        r@ == base_url@ + "/api/oauth/usage"@,
{
    let mut out = base_url.to_owned();
    out.append(PATH);
    out
}

/// `error` is what an answer with this status and this `retry-after` header stands
/// for.
pub open spec fn is_error_of(
    status: u16,
    retry_after: Option<Seq<char>>,
    error: Option<FetchError>,
) -> bool {
    if 200 <= status < 300 {
        error is None
    } else if status == 401 {
        error == Some(FetchError::Unauthorized)
    } else if status == 429 {
        error matches Some(FetchError::RateLimited { retry_after: after }) && match (
            after,
            retry_after,
        ) {
            (Some(n), Some(text)) => parsed_u64(text) == Some(n as nat),
            (None, Some(text)) => parsed_u64(text) is None,
            (None, None) => true,
            _ => false,
        }
    } else {
        error == Some(FetchError::Server(status))
    }
}

/// The error that an answer of the endpoint stands for: none for a success.
/// `retry_after` is the `retry-after` header, where it is text.
pub fn reply_error(status: u16, retry_after: Option<&str>) -> (r: Option<FetchError>)
    ensures
        match r {
            None => 200 <= status < 300,
            Some(FetchError::Unauthorized) => status == 401,
            Some(FetchError::RateLimited { retry_after: after }) => status == 429 && match (
                after,
                retry_after,
            ) {
                (Some(n), Some(text)) => parsed_u64(text@) == Some(n as nat),
                (None, Some(text)) => parsed_u64(text@) is None,
                (None, None) => true,
                _ => false,
            },
            Some(FetchError::Server(code)) => code == status && !(200 <= status < 300) && status
                != 401 && status != 429,
            Some(_) => false,
        },
        is_error_of(
            status,
            match retry_after {
                Some(text) => Some(text@),
                None => None,
            },
            r,
        ),
{
    if 200 <= status && status < 300 {
        None
    } else if status == 401 {
        Some(FetchError::Unauthorized)
    } else if status == 429 {
        let after = match retry_after {
            Some(text) => parse_u64(text),
            None => None,
        };
        Some(FetchError::RateLimited { retry_after: after })
    } else {
        Some(FetchError::Server(status))
    }
}

/// A reading that is larger than `limit`.
pub open spec fn above(limit: Value, u: Option<Value>) -> bool {
    match u {
        Some(v) => less(limit, v),
        None => false,
    }
}

/// One of the fields reports more than `limit`.
pub open spec fn some_field_above(limit: Value, fields: Seq<Field>) -> bool {
    exists|i: int| 0 <= i < fields.len() && above(limit, field_utilization(#[trigger] fields[i]))
}

proof fn lemma_raised(limit: Value, m: Value, u: Option<Value>)
    requires
        !(m is Nan),
        !(limit is Nan),
    ensures
        less(limit, raised(m, u)) <==> less(limit, m) || above(limit, u),
        !(raised(m, u) is Nan),
{
}

proof fn lemma_raised_by_all(limit: Value, m: Value, fields: Seq<Field>)
    requires
        !(m is Nan),
        !(limit is Nan),
    ensures
        less(limit, raised_by_all(m, fields)) <==> less(limit, m) || some_field_above(limit, fields),
        !(raised_by_all(m, fields) is Nan),
    decreases fields.len(),
{
    if fields.len() > 0 {
        let rest = fields.drop_last();
        lemma_raised_by_all(limit, m, rest);
        lemma_raised(limit, raised_by_all(m, rest), field_utilization(fields.last()));
        assert(some_field_above(limit, fields) <==> some_field_above(limit, rest) || above(
            limit,
            field_utilization(fields.last()),
        )) by {
            assert(fields[fields.len() - 1] == fields.last());
            if some_field_above(limit, rest) {
                let i = choose|i: int|
                    0 <= i < rest.len() && above(limit, field_utilization(#[trigger] rest[i]));
                assert(fields[i] == rest[i]);
            }
            if some_field_above(limit, fields) {
                let i = choose|i: int|
                    0 <= i < fields.len() && above(limit, field_utilization(#[trigger] fields[i]));
                if i < rest.len() {
                    assert(rest[i] == fields[i]);
                }
            }
        }
    }
}

/// A report is taken for percentages as soon as one reading is above one and a
/// half, and not before: a NaN decides nothing.
pub proof fn one_large_reading_decides(u: Usage)
    ensures
        in_percent(false, u) <==> above(ratio_value(15, 10), utilization_of(u.five_hour)) || above(
            ratio_value(15, 10),
            utilization_of(u.seven_day),
        ) || some_field_above(ratio_value(15, 10), u.fields),
{
    let limit = ratio_value(15, 10);
    zero_is_least(15, 10);
    let a = raised(zero(), utilization_of(u.five_hour));
    lemma_raised(limit, zero(), utilization_of(u.five_hour));
    lemma_raised(limit, a, utilization_of(u.seven_day));
    lemma_raised_by_all(limit, raised(a, utilization_of(u.seven_day)), u.fields);
}

/// Whether the latch is set after some reports.
pub open spec fn latched(before: bool, reports: Seq<Usage>) -> bool
    decreases reports.len(),
{
    if reports.len() == 0 {
        before
    } else {
        in_percent(latched(before, reports.drop_last()), reports.last())
    }
}

/// Once decided, every later report is taken for percentages.
pub proof fn percentages_stay(before: bool, reports: Seq<Usage>, n: int)
    requires
        0 <= n <= reports.len(),
        latched(before, reports.take(n)),
    ensures
        latched(before, reports),
    decreases reports.len(),
{
    if n == reports.len() {
        assert(reports.take(n) =~= reports);
    } else {
        assert(reports.drop_last().take(n) =~= reports.take(n));
        percentages_stay(before, reports.drop_last(), n);
    }
}

/// The latch is set by what was known before or by one report alone.
pub proof fn one_report_sets_the_latch(before: bool, reports: Seq<Usage>)
    ensures
        latched(before, reports) <==> before || exists|i: int|
            0 <= i < reports.len() && in_percent(false, #[trigger] reports[i]),
    decreases reports.len(),
{
    if reports.len() > 0 {
        let rest = reports.drop_last();
        one_report_sets_the_latch(before, rest);
        assert(reports[reports.len() - 1] == reports.last());
        if exists|i: int| 0 <= i < rest.len() && in_percent(false, #[trigger] rest[i]) {
            let i = choose|i: int| 0 <= i < rest.len() && in_percent(false, #[trigger] rest[i]);
            assert(in_percent(false, reports[i]));
        }
        if exists|i: int| 0 <= i < reports.len() && in_percent(false, #[trigger] reports[i]) {
            let i = choose|i: int|
                0 <= i < reports.len() && in_percent(false, #[trigger] reports[i]);
            assert(i < rest.len() ==> in_percent(false, rest[i]));
        }
    }
}

/// Neither quota is higher than the headline, as far as they are numbers.
pub proof fn headline_is_the_higher(u: Usage)
    ensures
        u.five_hour matches Some(r) ==> !less(headline(u), r.utilization),
        u.seven_day matches Some(r) ==> !less(headline(u), r.utilization),
        match (u.five_hour, u.seven_day) {
            (Some(r), Some(w)) => r.utilization is Nan ==> headline(u) == w.utilization,
            _ => true,
        },
{
}

/// The headline is one of the two quotas, where zero stands for one without a
/// reading, and neither is higher.
pub proof fn the_headline_is_one_of_the_two(u: Usage)
    ensures
        ({
            let s = match u.five_hour {
                Some(r) => r.utilization,
                None => ratio_value(0, 1),
            };
            let w = match u.seven_day {
                Some(r) => r.utilization,
                None => ratio_value(0, 1),
            };
            &&& headline(u) == s || headline(u) == w
            &&& !less(headline(u), s)
            &&& !less(headline(u), w)
            &&& headline(u) is Nan ==> s is Nan && w is Nan
        }),
{
}

/// A report after the scale was settled, the latch being set before or not.
pub open spec fn settled(before: bool, u: Usage) -> Usage {
    if in_percent(before, u) {
        scaled(u)
    } else {
        u
    }
}

/// Two fields that say the same but for how much is used up.
pub open spec fn differ_in_use_only(a: Field, b: Field) -> bool {
    match (a, b) {
        (
            Field::Object { utilization: u, resets_at: s },
            Field::Object { utilization: v, resets_at: t },
        ) => s == t && (u is Some <==> v is Some),
        (Field::Other { window: x }, Field::Other { window: y }) => x == y,
        _ => false,
    }
}

/// Bringing a report to scale changes utilizations only, whatever the latch: each
/// quota is there exactly when it was before and is renewed when it was to be
/// before, and every further field is kept under its name.
pub proof fn rescaling_changes_utilizations_only(before: bool, u: Usage)
    ensures
        settled(before, u).five_hour is Some <==> u.five_hour is Some,
        settled(before, u).seven_day is Some <==> u.seven_day is Some,
        settled(before, u).five_hour matches Some(r) ==> r.resets_at == u.five_hour->0.resets_at,
        settled(before, u).seven_day matches Some(r) ==> r.resets_at == u.seven_day->0.resets_at,
        settled(before, u).names == u.names,
        settled(before, u).fields.len() == u.fields.len(),
        forall|i: int|
            0 <= i < u.fields.len() ==> differ_in_use_only(
                u.fields[i],
                #[trigger] settled(before, u).fields[i],
            ),
{
}

proof fn lemma_hundredth(v: Value)
    requires
        v matches Value::Fin { neg, .. } && !neg,
        0x2000_0000_0000_0000 <= steps_of(v) <= 1_000_000_000_000 * pow2(1074),
    ensures
        hundredth(v) is Fin,
        is_close(100 * steps_of(hundredth(v)), steps_of(v), 0x20_0000_0000_0000),
{
    let p = pow2(1074) as int;
    lemma_pow2_pos(1074);
    whole_numbers_are_exact(100);
    positive_numbers_have_steps(ratio_value(100, 1));
    let x = steps_of(v);
    assert(0x10_0000_0000_0000 * (100 * p) <= x * p && x <= 1_000_000_000_000 * (100 * p))
        by (nonlinear_arith)
        requires
            0x2000_0000_0000_0000 <= x <= 1_000_000_000_000 * p,
            p > 0,
    ;
    quotients_are_close(v, ratio_value(100, 1), 1_000_000_000_000);
    let h = steps_of(hundredth(v));
    assert(h * (100 * p) == (100 * h) * p) by (nonlinear_arith);
    assert(-x <= (100 * h - x) * 0x20_0000_0000_0000 <= x) by (nonlinear_arith)
        requires
            -(x * p) <= ((100 * h) * p - x * p) * 0x20_0000_0000_0000 <= x * p,
            p > 0,
    {
        assert(((100 * h) * p - x * p) * 0x20_0000_0000_0000 == ((100 * h - x)
            * 0x20_0000_0000_0000) * p);
        assert(-(x * p) == (-x) * p);
    }
}

/// A utilization that counts as an ordinary percentage: from next to nothing up
/// to a million million.
pub open spec fn is_ordinary(v: Value) -> bool {
    &&& v matches Value::Fin { neg, .. } && !neg
    &&& 0x2000_0000_0000_0000 <= steps_of(v) <= 1_000_000_000_000 * pow2(1074)
}

/// `after` is a hundredth of `before`, but for rounding.
pub open spec fn is_a_hundredth(after: Value, before: Value) -> bool {
    after is Fin && is_close(100 * steps_of(after), steps_of(before), 0x20_0000_0000_0000)
}

/// Of a report in percentages, every utilization comes out as a hundredth of what
/// it was, in both quotas and in every further field.
pub proof fn percentages_become_hundredths(before: bool, u: Usage, i: int)
    requires
        in_percent(before, u),
        0 <= i < u.fields.len(),
    ensures
        u.five_hour matches Some(r) ==> (is_ordinary(r.utilization) ==> is_a_hundredth(
            settled(before, u).five_hour->0.utilization,
            r.utilization,
        )),
        u.seven_day matches Some(r) ==> (is_ordinary(r.utilization) ==> is_a_hundredth(
            settled(before, u).seven_day->0.utilization,
            r.utilization,
        )),
        u.fields[i] matches Field::Object { utilization: Some(v), .. } ==> (is_ordinary(v) ==> (
        settled(before, u).fields[i] matches Field::Object { utilization: Some(w), .. }
            && is_a_hundredth(w, v))),
{
    if let Some(r) = u.five_hour {
        if is_ordinary(r.utilization) {
            lemma_hundredth(r.utilization);
        }
    }
    if let Some(r) = u.seven_day {
        if is_ordinary(r.utilization) {
            lemma_hundredth(r.utilization);
        }
    }
    if let Field::Object { utilization: Some(v), .. } = u.fields[i] {
        if is_ordinary(v) {
            lemma_hundredth(v);
        }
    }
}

/// A report in fractions is left as it is, and a set latch stays set.
pub proof fn fractions_are_left_alone(u: Usage)
    ensures
        !in_percent(false, u) ==> settled(false, u) == u,
        in_percent(true, u),
        settled(true, u) == scaled(u),
{
}

/// A field is that of a model when its name says so and it has a window: a
/// utilization and a time of renewal, even if that is null. It is listed under
/// what follows in its name, with exactly what it says.
pub proof fn what_counts_as_a_model(name: Seq<char>, suffix: Seq<char>, f: Field)
    ensures
        !"seven_day_"@.is_prefix_of(name) ==> model_of(name, f) is None,
        f matches Field::Object { utilization: None, .. } ==> model_of(name, f) is None,
        f matches Field::Object { resets_at: None, .. } ==> model_of(name, f) is None,
        f matches Field::Other { window: None } ==> model_of(name, f) is None,
        f matches Field::Object { utilization: Some(v), resets_at: Some(t) } ==> model_of(
            "seven_day_"@ + suffix,
            f,
        ) == Some((humanized(suffix), Reading { utilization: v, resets_at: t })),
        f matches Field::Other { window: Some(r) } ==> model_of("seven_day_"@ + suffix, f) == Some(
            (humanized(suffix), r),
        ),
{
    let whole = "seven_day_"@ + suffix;
    assert(whole.skip("seven_day_"@.len() as int) =~= suffix);
    assert(whole.subrange(0, "seven_day_"@.len() as int) =~= "seven_day_"@);
}

/// Every model of a report is listed once for its field, and nothing else is.
pub proof fn every_model_is_listed(names: Seq<Seq<char>>, fields: Seq<Field>, more: Field)
    ensures
        models(names, seq![]) == Seq::<(Seq<char>, Reading)>::empty(),
        models(names, fields.push(more)) == match model_of(names[fields.len() as int], more) {
            Some(m) => models(names, fields).push(m),
            None => models(names, fields),
        },
        forall|i: int|
            0 <= i < fields.len() && model_of(names[i], #[trigger] fields[i]) is Some ==> models(
                names,
                fields,
            ).contains(model_of(names[i], fields[i])->0),
        forall|k: int|
            0 <= k < models(names, fields).len() ==> exists|i: int|
                0 <= i < fields.len() && model_of(names[i], #[trigger] fields[i]) == Some(
                    #[trigger] models(names, fields)[k],
                ),
    decreases fields.len(),
{
    assert(fields.push(more).drop_last() =~= fields);
    if fields.len() > 0 {
        let rest = fields.drop_last();
        let last = fields.last();
        let all = models(names, fields);
        every_model_is_listed(names, rest, more);
        assert(fields[fields.len() - 1] == last);
        assert forall|i: int|
            0 <= i < fields.len() && model_of(names[i], #[trigger] fields[i]) is Some implies all.contains(
            model_of(names[i], fields[i])->0,
        ) by {
            let m = model_of(names[i], fields[i])->0;
            if i < rest.len() {
                assert(rest[i] == fields[i]);
                let k = models(names, rest).index_of(m);
                assert(all[k] == m);
            } else {
                assert(all[all.len() - 1] == m);
            }
        }
        assert forall|k: int| 0 <= k < all.len() implies exists|i: int|
            0 <= i < fields.len() && model_of(names[i], #[trigger] fields[i]) == Some(
                #[trigger] all[k],
            ) by {
            if k < models(names, rest).len() {
                assert(all[k] == models(names, rest)[k]);
                let i = choose|i: int|
                    0 <= i < rest.len() && model_of(names[i], #[trigger] rest[i]) == Some(
                        models(names, rest)[k],
                    );
                assert(fields[i] == rest[i]);
            } else {
                assert(model_of(names[fields.len() - 1], fields[fields.len() - 1]) == Some(all[k]));
            }
        }
    }
}

/// What is made of the body of a successful answer. `decoded` is the report, or
/// why there is none in it.
pub fn take_report(decoded: Result<UsageResponse, String>, latch: &mut ScaleLatch) -> (r: Result<
    UsageResponse,
    FetchError,
>)
    ensures
        match (decoded, r) {
            (Ok(told), Ok(usage)) => {
                &&& final(latch)@ == in_percent(old(latch)@, told@)
                &&& usage@ == if final(latch)@ {
                    scaled(told@)
                } else {
                    told@
                }
                &&& usage@ == settled(old(latch)@, told@)
            },
            (Err(why), Err(FetchError::Decode(shown))) => shown == why && *final(latch) == *old(
                latch,
            ),
            _ => false,
        },
{
    match decoded {
        Ok(told) => {
            let mut usage = told;
            usage.normalize_scale(latch);
            Ok(usage)
        },
        Err(why) => Err(FetchError::Decode(why)),
    }
}

/// Sorting the models by their labels neither adds nor loses one.
pub proof fn sorting_keeps_the_models(list: Seq<(Seq<char>, Reading)>, k: int)
    requires
        list.len() <= usize::MAX,
        0 <= k < list.len(),
    ensures
        by_label(list).len() == list.len(),
        by_label(list).contains(list[k]),
        list.contains(by_label(list)[k]),
        forall|i: int, j: int|
            0 <= i < j < list.len() ==> !text_below(
                (#[trigger] by_label(list)[j]).0,
                (#[trigger] by_label(list)[i]).0,
            ),
{
    let names = labels(list);
    let order = ranking::<String>(names);
    crate::ranking::every_list_has_a_ranking::<String>(names);
    crate::ranking::every_item_is_ranked::<String>(order, names, k as usize);
    let i = order.index_of(k as usize);
    assert(by_label(list)[i] == list[k]);
    assert(order[k] < names.len());
    assert(list[order[k] as int] == by_label(list)[k]);
    assert forall|i: int, j: int| 0 <= i < j < list.len() implies !text_below(
        (#[trigger] by_label(list)[j]).0,
        (#[trigger] by_label(list)[i]).0,
    ) by {
        let (a, b) = (names[order[i] as int], names[order[j] as int]);
        assert(crate::ranking::ranks_before::<String>(names, order[i], order[j]));
        String::irreflexive(a);
        if text_below(b, a) && text_below(a, b) {
            String::transitive(a, b, a);
        }
    }
}

/// A field whose utilization is no finite number is left as it is.
pub proof fn fields_without_a_number_are_left_alone(before: bool, u: Usage, i: int)
    requires
        0 <= i < u.fields.len(),
        match u.fields[i] {
            Field::Object { utilization: Some(v), .. } => !(v is Fin),
            _ => true,
        },
    ensures
        settled(before, u).fields[i] == u.fields[i],
{
    whole_numbers_are_exact(100);
}

/// What an error says ends in what is known of it: the seconds to wait, the status,
/// or why it came about.
pub proof fn errors_say_what_is_known(n: u64, code: u16, why: String)
    ensures
        n > 0 ==> fetch_message(FetchError::RateLimited { retry_after: Some(n) })
            == "rate limited (retry after Some("@ + (decimal(n as nat) + "s"@) + "))"@,
        fetch_message(FetchError::Server(code)) == "server error: HTTP "@ + decimal(code as nat),
        fetch_message(FetchError::Network(why)).skip("network error: "@.len() as int) == why@,
        fetch_message(FetchError::Decode(why)).skip("decode error: "@.len() as int) == why@,
{
    assert(fetch_message(FetchError::Network(why)).skip("network error: "@.len() as int) =~= why@);
    assert(fetch_message(FetchError::Decode(why)).skip("decode error: "@.len() as int) =~= why@);
}

/// An answer stands for an error exactly when its status is none of a success. The
/// status 401 stands for a token that does not hold and no other does; 429 stands
/// for too many requests, with the seconds that the header asks for in digits; every
/// other one stands for itself.
pub proof fn what_answers_stand_for(
    status: u16,
    header: Option<Seq<char>>,
    error: Option<FetchError>,
    n: u64,
)
    requires
        is_error_of(status, header, error),
    ensures
        error is None <==> status / 100 == 2,
        error == Some(FetchError::Unauthorized) <==> status == 401,
        error matches Some(FetchError::RateLimited { .. }) <==> status == 429,
        status == 429 && header == Some(decimal(n as nat)) ==> error == Some(
            FetchError::RateLimited { retry_after: Some(n) },
        ),
        status == 429 && header is None ==> error == Some(
            FetchError::RateLimited { retry_after: None },
        ),
        status / 100 != 2 && status != 401 && status != 429 ==> error == Some(
            FetchError::Server(status),
        ),
{
    crate::text::decimals_stand_for_their_number(n as nat);
}

} // verus!
