//! What token use would cost at list prices.
//!
//! Prices are dollars per million tokens.

use crate::brand::{product, product_name};
use crate::double::{
    amounts_round_within_a_half, at_most, counts_are_finite, cut, cuts_grow, fractions_are_close,
    half_away, is_amount, is_close, is_positive, moderate_numbers, moderate_quotients,
    multiples_are_close, one_has_many_steps, over, plus, positive_numbers_have_steps,
    products_are_close, products_commute, products_grow, quotients_are_close, ratio_value, steps_of,
    sums_are_close, sums_grow, times, whole_numbers_are_exact, whole_numbers_grow, wholes_grow,
    Double, Value,
};
use crate::text::{from_chars, same, to_chars};
use vstd::arithmetic::power2::{lemma_pow2_pos, pow2};
use vstd::prelude::*;

verus! {

/// The list prices of a model.
#[derive(Debug, Clone, Copy, PartialEq)]
pub struct Rates {
    pub input: Double,
    pub cache_write_5m: Double,
    pub cache_write_1h: Double,
    pub cache_read: Double,
    pub output: Double,
    /// What a fast answer costs as a multiple of an ordinary one.
    pub fast_multiplier: Double,
}

/// What `Rates` say.
pub struct Tariff {
    pub input: Value,
    pub cache_write_5m: Value,
    pub cache_write_1h: Value,
    pub cache_read: Value,
    pub output: Value,
    pub fast_multiplier: Value,
}

impl View for Rates {
    type V = Tariff;

    open spec fn view(&self) -> Tariff {
        Tariff {
            input: self.input@,
            cache_write_5m: self.cache_write_5m@,
            cache_write_1h: self.cache_write_1h@,
            cache_read: self.cache_read@,
            output: self.output@,
            fast_multiplier: self.fast_multiplier@,
        }
    }
}

/// Prices given in dollars, that of reading from a cache in cents. Writing to a
/// cache costs one and a quarter times the input for five minutes and twice the
/// input for an hour.
pub open spec fn tariff(input_cents: nat, read_cents: nat, output: nat, fast: nat) -> Tariff {
    let input = ratio_value(input_cents, 100);
    Tariff {
        input,
        cache_write_5m: times(input, ratio_value(125, 100)),
        cache_write_1h: times(input, ratio_value(2, 1)),
        cache_read: ratio_value(read_cents, 100),
        output: ratio_value(output, 1),
        fast_multiplier: ratio_value(fast, 1),
    }
}

fn rates(input_cents: u64, read_cents: u64, output: u64, fast: u64) -> (r: Rates)
    ensures
        r@ == tariff(input_cents as nat, read_cents as nat, output as nat, fast as nat),
{
    let input = Double::ratio(input_cents, 100);
    Rates {
        input,
        cache_write_5m: input.mul(Double::ratio(125, 100)),
        cache_write_1h: input.mul(Double::ratio(2, 1)),
        cache_read: Double::ratio(read_cents, 100),
        output: Double::ratio(output, 1),
        fast_multiplier: Double::ratio(fast, 1),
    }
}

/// A model with prices of its own.
#[derive(Debug, Clone, Copy, PartialEq, Eq, Structural)]
pub enum Model {
    Fable51,
    Fable5,
    Opus55,
    Opus5,
    Opus48,
    Opus45,
    Opus4,
    Sonnet5,
    Sonnet4,
    Haiku45,
    Haiku35,
}

/// The prices of a model.
pub open spec fn price_of(m: Model) -> Tariff {
    match m {
        Model::Fable51 => tariff(1000, 25, 50, 1),
        Model::Fable5 => tariff(1000, 100, 50, 1),
        Model::Opus55 => tariff(400, 20, 20, 2),
        Model::Opus5 => tariff(500, 50, 25, 2),
        Model::Opus48 => tariff(500, 50, 25, 2),
        Model::Opus45 => tariff(500, 50, 25, 1),
        Model::Opus4 => tariff(1500, 150, 75, 1),
        Model::Sonnet5 => tariff(200, 20, 10, 1),
        Model::Sonnet4 => tariff(300, 30, 15, 1),
        Model::Haiku45 => tariff(100, 10, 5, 1),
        Model::Haiku35 => tariff(80, 8, 4, 1),
    }
}

impl Model {
    /// The prices of the model.
    pub fn rates(self) -> (r: Rates)
        ensures
            r@ == price_of(self),
    {
        match self {
            Model::Fable51 => rates(1000, 25, 50, 1),
            Model::Fable5 => rates(1000, 100, 50, 1),
            Model::Opus55 => rates(400, 20, 20, 2),
            Model::Opus5 => rates(500, 50, 25, 2),
            Model::Opus48 => rates(500, 50, 25, 2),
            Model::Opus45 => rates(500, 50, 25, 1),
            Model::Opus4 => rates(1500, 150, 75, 1),
            Model::Sonnet5 => rates(200, 20, 10, 1),
            Model::Sonnet4 => rates(300, 30, 15, 1),
            Model::Haiku45 => rates(100, 10, 5, 1),
            Model::Haiku35 => rates(80, 8, 4, 1),
        }
    }
}

/// How the identifiers of the models go on after the name of the product.
pub open spec fn price_list() -> Seq<(Seq<char>, Model)> {
    seq![
        ("fable-5-1"@, Model::Fable51),
        ("mythos-5-1"@, Model::Fable51),
        ("fable-5"@, Model::Fable5),
        ("mythos-5"@, Model::Fable5),
        ("opus-5-5"@, Model::Opus55),
        ("opus-5"@, Model::Opus5),
        ("opus-4-8"@, Model::Opus48),
        ("opus-4-7"@, Model::Opus45),
        ("opus-4-6"@, Model::Opus45),
        ("opus-4-5"@, Model::Opus45),
        ("opus-4"@, Model::Opus4),
        ("sonnet-5"@, Model::Sonnet5),
        ("sonnet-4"@, Model::Sonnet4),
        ("3-7-sonnet"@, Model::Sonnet4),
        ("haiku-4-5"@, Model::Haiku45),
        ("3-5-haiku"@, Model::Haiku35),
    ]
}

const LISTED: usize = 16;

fn listed(i: usize) -> (r: (&'static str, Model))
    requires
        i < 16,
    ensures
        price_list()[i as int] == (r.0@, r.1),
{
    match i {
        0 => ("fable-5-1", Model::Fable51),
        1 => ("mythos-5-1", Model::Fable51),
        2 => ("fable-5", Model::Fable5),
        3 => ("mythos-5", Model::Fable5),
        4 => ("opus-5-5", Model::Opus55),
        5 => ("opus-5", Model::Opus5),
        6 => ("opus-4-8", Model::Opus48),
        7 => ("opus-4-7", Model::Opus45),
        8 => ("opus-4-6", Model::Opus45),
        9 => ("opus-4-5", Model::Opus45),
        10 => ("opus-4", Model::Opus4),
        11 => ("sonnet-5", Model::Sonnet5),
        12 => ("sonnet-4", Model::Sonnet4),
        13 => ("3-7-sonnet", Model::Sonnet4),
        14 => ("haiku-4-5", Model::Haiku45),
        _ => ("3-5-haiku", Model::Haiku35),
    }
}

/// The part of an identifier before its context tag, which begins with a
/// bracket.
pub open spec fn untagged(s: Seq<char>) -> Seq<char>
    decreases s.len(),
{
    if s.len() == 0 || s[0] == '[' {
        seq![]
    } else {
        seq![s[0]] + untagged(s.skip(1))
    }
}

/// `t` stands in `s` at `i`.
pub open spec fn stands_at(s: Seq<char>, t: Seq<char>, i: int) -> bool {
    0 <= i && i + t.len() <= s.len() && s.subrange(i, i + t.len()) == t
}

/// `t` stands somewhere in `s`.
pub open spec fn has_text(s: Seq<char>, t: Seq<char>) -> bool {
    exists|i: int| stands_at(s, t, i)
}

/// The current model of the family that an identifier names.
pub open spec fn family(id: Seq<char>) -> Option<Model> {
    if has_text(id, "fable"@) || has_text(id, "mythos"@) {
        Some(Model::Fable51)
    } else if has_text(id, "opus"@) {
        Some(Model::Opus55)
    } else if has_text(id, "sonnet"@) {
        Some(Model::Sonnet5)
    } else if has_text(id, "haiku"@) {
        Some(Model::Haiku45)
    } else {
        None
    }
}

/// How the identifier of a listed model begins.
pub open spec fn identifier(name: Seq<char>) -> Seq<char> {
    product() + "-"@ + name
}

/// The first entry of the list, from entry `i` on, whose identifier `id` begins
/// with.
pub open spec fn first_listed(id: Seq<char>, i: int) -> Option<Model>
    decreases price_list().len() - i,
{
    if i >= price_list().len() {
        None
    } else if identifier(price_list()[i].0).is_prefix_of(id) {
        Some(price_list()[i].1)
    } else {
        first_listed(id, i + 1)
    }
}

/// The model by whose prices an identifier is billed.
pub open spec fn billed_as(model: Seq<char>) -> Option<Model> {
    let id = untagged(model);
    match first_listed(id, 0) {
        Some(m) => Some(m),
        None => family(id),
    }
}

proof fn lemma_untagged(s: Seq<char>, n: int)
    requires
        0 <= n <= s.len(),
        forall|i: int| 0 <= i < n ==> s[i] != '[',
        n == s.len() || s[n] == '[',
    ensures
        untagged(s) == s.take(n),
    decreases n,
{
    if n > 0 {
        lemma_untagged(s.skip(1), n - 1);
        assert(s.take(n) =~= seq![s[0]] + s.skip(1).take(n - 1));
    } else {
        assert(s.take(n) =~= seq![]);
    }
}

fn without_tag(chars: &Vec<char>) -> (r: Vec<char>)
    ensures
        r@ == untagged(chars@),
{
    let mut out: Vec<char> = Vec::new();
    let mut i: usize = 0;
    while i < chars.len() && chars[i] != '['
        invariant
            i <= chars.len(),
            out@ =~= chars@.take(i as int),
            forall|k: int| 0 <= k < i ==> chars@[k] != '[',
        decreases chars.len() - i,
    {
        out.push(chars[i]);
        i = i + 1;
    }
    proof {
        lemma_untagged(chars@, i as int);
    }
    out
}

/// Whether `t` stands in `chars` at `from`.
fn text_at(chars: &Vec<char>, t: &str, from: usize) -> (r: bool)
    requires
        from <= chars.len(),
    ensures
        r == stands_at(chars@, t@, from as int),
{
    let n: usize = to_chars(t).len();
    if chars.len() - from < n {
        return false;
    }
    let part = from_chars(chars, from, from + n);
    same(part.as_str(), t)
}

fn contains_text(chars: &Vec<char>, t: &str) -> (r: bool)
    ensures
        r == has_text(chars@, t@),
{
    let mut i: usize = 0;
    while i < chars.len()
        invariant
            i <= chars.len(),
            forall|k: int| 0 <= k < i ==> !#[trigger] stands_at(chars@, t@, k),
        decreases chars.len() - i,
    {
        if text_at(chars, t, i) {
            return true;
        }
        i = i + 1;
    }
    let last = text_at(chars, t, i);
    assert(!last ==> forall|k: int| !#[trigger] stands_at(chars@, t@, k));
    last
}

/// The model by whose prices an identifier is billed. A tag in brackets does
/// not count, nor what follows a listed name, such as a date. A model that is
/// not listed is billed as the current one of its family.
pub fn model_for(model: &str) -> (r: Option<Model>)
    ensures
        r == billed_as(model@),
{
    let id = without_tag(&to_chars(model));
    let mut head = product_name();
    head.append("-");
    let mut i: usize = 0;
    while i < LISTED
        invariant
            i <= 16,
            id@ == untagged(model@),
            head@ == product() + "-"@,
            first_listed(id@, 0) == first_listed(id@, i as int),
        decreases 16 - i,
    {
        let (name, m) = listed(i);
        let mut prefix = head.clone();
        prefix.append(name);
        let begins = text_at(&id, prefix.as_str(), 0);
        assert(begins == prefix@.is_prefix_of(id@)) by {
            if begins {
                assert(id@.subrange(0, prefix@.len() as int) == prefix@);
            }
            if prefix@.is_prefix_of(id@) {
                assert(id@.subrange(0, prefix@.len() as int) =~= prefix@);
            }
        }
        if begins {
            return Some(m);
        }
        i = i + 1;
    }
    if contains_text(&id, "fable") || contains_text(&id, "mythos") {
        Some(Model::Fable51)
    } else if contains_text(&id, "opus") {
        Some(Model::Opus55)
    } else if contains_text(&id, "sonnet") {
        Some(Model::Sonnet5)
    } else if contains_text(&id, "haiku") {
        Some(Model::Haiku45)
    } else {
        None
    }
}

/// The list prices for a model, where it has any.
pub fn rates_for(model: &str) -> (r: Option<Rates>)
    ensures
        match (r, billed_as(model@)) {
            (Some(rates), Some(m)) => rates@ == price_of(m),
            (None, None) => true,
            _ => false,
        },
{
    match model_for(model) {
        Some(m) => Some(m.rates()),
        None => None,
    }
}

/// The token counts of one answer.
#[derive(Debug, Clone, Copy)]
pub struct MessageUsage {
    pub input: u64,
    pub output: u64,
    /// Everything written to a cache.
    pub cache_creation: u64,
    /// The part of it that is kept for an hour; the rest is kept for five
    /// minutes.
    pub cache_creation_1h: u64,
    pub cache_read: u64,
    pub web_search_requests: u64,
    pub fast: bool,
}

impl Default for MessageUsage {
    fn default() -> (r: MessageUsage)
        ensures
            r == (MessageUsage {
                input: 0,
                output: 0,
                cache_creation: 0,
                cache_creation_1h: 0,
                cache_read: 0,
                web_search_requests: 0,
                fast: false,
            }),
    {
        MessageUsage {
            input: 0,
            output: 0,
            cache_creation: 0,
            cache_creation_1h: 0,
            cache_read: 0,
            web_search_requests: 0,
            fast: false,
        }
    }
}

/// The tokens that are kept in a cache for an hour.
pub open spec fn kept_an_hour(u: MessageUsage) -> nat {
    if u.cache_creation_1h < u.cache_creation {
        u.cache_creation_1h as nat
    } else {
        u.cache_creation as nat
    }
}

/// `n` tokens at a price, in millionths of a dollar.
pub open spec fn at_price(n: nat, price: Value) -> Value {
    times(ratio_value(n, 1), price)
}

/// The cost of the tokens of an answer, in millionths of a dollar.
pub open spec fn token_cost(t: Tariff, u: MessageUsage) -> Value {
    let hour = kept_an_hour(u);
    let minutes = (u.cache_creation - hour) as nat;
    plus(
        plus(
            plus(
                plus(
                    at_price(u.input as nat, t.input),
                    at_price(minutes, t.cache_write_5m),
                ),
                at_price(hour, t.cache_write_1h),
            ),
            at_price(u.cache_read as nat, t.cache_read),
        ),
        at_price(u.output as nat, t.output),
    )
}

/// What some searches cost, in millionths of a dollar.
pub open spec fn search_cost(n: nat) -> Value {
    times(
        times(ratio_value(n, 1), over(ratio_value(10, 1), ratio_value(1000, 1))),
        ratio_value(1_000_000, 1),
    )
}

/// The cost of an answer, in millionths of a dollar: that of its tokens, which
/// is multiplied for a fast answer, and a cent for each search.
pub open spec fn cost(t: Tariff, u: MessageUsage) -> Value {
    let factor = if u.fast {
        t.fast_multiplier
    } else {
        ratio_value(1, 1)
    };
    plus(times(token_cost(t, u), factor), search_cost(u.web_search_requests as nat))
}

/// What an answer would cost, in whole millionths of a dollar.
pub open spec fn billed(m: Model, u: MessageUsage) -> int {
    cut(half_away(cost(price_of(m), u)), 0, u64::MAX as int)
}

/// What an answer would cost, in millionths of a dollar; nothing for a model
/// without prices.
pub fn cost_micros(model: &str, u: &MessageUsage) -> (r: u64)
    ensures
        r == match billed_as(model@) {
            Some(m) => billed(m, *u),
            None => 0,
        },
{
    let t = match rates_for(model) {
        Some(t) => t,
        None => {
            return 0;
        },
    };
    let write_1h: u64 = if u.cache_creation_1h < u.cache_creation {
        u.cache_creation_1h
    } else {
        u.cache_creation
    };
    let write_5m: u64 = u.cache_creation - write_1h;
    let tokens = Double::from_u64(u.input).mul(t.input).add(
        Double::from_u64(write_5m).mul(t.cache_write_5m),
    ).add(Double::from_u64(write_1h).mul(t.cache_write_1h)).add(
        Double::from_u64(u.cache_read).mul(t.cache_read),
    ).add(Double::from_u64(u.output).mul(t.output));
    let factor = if u.fast {
        t.fast_multiplier
    } else {
        Double::ratio(1, 1)
    };
    let search_price = Double::ratio(10, 1).div(Double::ratio(1000, 1));
    let search = Double::from_u64(u.web_search_requests).mul(search_price).mul(
        Double::from_u64(1_000_000),
    );
    tokens.mul(factor).add(search).round().to_u64()
}

/// Entry `a` of the list is told from entry `b` by its length or one of four
/// characters.
spec fn told_apart(a: Seq<char>, b: Seq<char>) -> bool {
    ||| a.len() > b.len()
    ||| a[0] != b[0]
    ||| a[2] != b[2]
    ||| (a.len() > 5 && b.len() > 5 && a[5] != b[5])
    ||| (a.len() > 7 && b.len() > 7 && a[7] != b[7])
}

proof fn lemma_told_apart(i: int, j: int)
    requires
        0 <= i < j < price_list().len(),
    ensures
        told_apart(price_list()[i].0, price_list()[j].0),
        price_list()[i].0.len() > 3,
{
    reveal_strlit("fable-5-1");
    reveal_strlit("mythos-5-1");
    reveal_strlit("fable-5");
    reveal_strlit("mythos-5");
    reveal_strlit("opus-5-5");
    reveal_strlit("opus-5");
    reveal_strlit("opus-4-8");
    reveal_strlit("opus-4-7");
    reveal_strlit("opus-4-6");
    reveal_strlit("opus-4-5");
    reveal_strlit("opus-4");
    reveal_strlit("sonnet-5");
    reveal_strlit("sonnet-4");
    reveal_strlit("3-7-sonnet");
    reveal_strlit("haiku-4-5");
    reveal_strlit("3-5-haiku");
}

/// The entry that decides is the longest that an identifier begins with.
pub proof fn most_specific_entry_wins(id: Seq<char>, i: int, k: int)
    requires
        0 <= k < price_list().len(),
        identifier(price_list()[k].0).is_prefix_of(id),
        forall|j: int|
            0 <= j < price_list().len() && identifier(
                (#[trigger] price_list()[j]).0,
            ).is_prefix_of(id) ==> price_list()[j].0.len() <= price_list()[k].0.len(),
        0 <= i <= k,
    ensures
        first_listed(id, i) == Some(price_list()[k].1),
    decreases k - i,
{
    if i < k {
        let a = price_list()[i].0;
        let b = price_list()[k].0;
        let n = (product() + "-"@).len() as int;
        lemma_told_apart(i, k);
        if identifier(a).is_prefix_of(id) {
            assert(a.len() <= b.len());
            assert forall|p: int| 0 <= p < a.len() implies a[p] == b[p] by {
                assert(identifier(a)[n + p] == a[p]);
                assert(identifier(b)[n + p] == b[p]);
                assert(id.subrange(0, identifier(a).len() as int)[n + p] == id[n + p]);
                assert(id.subrange(0, identifier(b).len() as int)[n + p] == id[n + p]);
            }
        }
        most_specific_entry_wins(id, i + 1, k);
    }
}

/// A tag in brackets makes no difference to the price.
pub proof fn tags_are_ignored(id: Seq<char>, tag: Seq<char>)
    requires
        forall|i: int| 0 <= i < id.len() ==> id[i] != '[',
    ensures
        billed_as(id + seq!['['] + tag) == billed_as(id),
{
    let tagged = id + seq!['['] + tag;
    lemma_untagged(id, id.len() as int);
    lemma_untagged(tagged, id.len() as int);
    assert(id.take(id.len() as int) =~= id);
    assert(tagged.take(id.len() as int) =~= id);
}

/// The prices of every model are positive.
proof fn lemma_prices(m: Model)
    ensures
        ({
            let t = price_of(m);
            &&& is_price(t.input)
            &&& is_price(t.cache_write_5m)
            &&& is_price(t.cache_write_1h)
            &&& is_price(t.cache_read)
            &&& is_price(t.output)
            &&& is_price(t.fast_multiplier)
        }),
{
    let (input_cents, read_cents, output, fast): (nat, nat, nat, nat) = match m {
        Model::Fable51 => (1000, 25, 50, 1),
        Model::Fable5 => (1000, 100, 50, 1),
        Model::Opus55 => (400, 20, 20, 2),
        Model::Opus5 => (500, 50, 25, 2),
        Model::Opus48 => (500, 50, 25, 2),
        Model::Opus45 => (500, 50, 25, 1),
        Model::Opus4 => (1500, 150, 75, 1),
        Model::Sonnet5 => (200, 20, 10, 1),
        Model::Sonnet4 => (300, 30, 15, 1),
        Model::Haiku45 => (100, 10, 5, 1),
        Model::Haiku35 => (80, 8, 4, 1),
    };
    moderate_numbers(input_cents, 100, 125, 100);
    moderate_numbers(input_cents, 100, 2, 1);
    moderate_numbers(read_cents, 100, 1, 1);
    moderate_numbers(output, 1, 1, 1);
    moderate_numbers(fast, 1, 1, 1);
}

/// A finite number above zero.
pub open spec fn is_price(v: Value) -> bool {
    v matches Value::Fin { neg, mant, .. } && !neg && mant > 0
}

/// More tokens at a price cost no less.
proof fn lemma_at_price(a: nat, b: nat, price: Value)
    requires
        a <= b,
        is_price(price),
    ensures
        is_amount(at_price(a, price)),
        is_amount(at_price(b, price)),
        at_most(at_price(a, price), at_price(b, price)),
{
    whole_numbers_grow(a, b);
    products_grow(ratio_value(a, 1), ratio_value(b, 1), price);
}

/// `v` uses at least as many tokens of each kind as `u`, and as many searches.
pub open spec fn uses_no_less(u: MessageUsage, v: MessageUsage) -> bool {
    &&& u.input <= v.input
    &&& u.output <= v.output
    &&& u.cache_read <= v.cache_read
    &&& kept_an_hour(u) <= kept_an_hour(v)
    &&& u.cache_creation - kept_an_hour(u) <= v.cache_creation - kept_an_hour(v)
    &&& u.web_search_requests <= v.web_search_requests
}

/// More tokens or searches never cost less.
pub proof fn more_never_costs_less(m: Model, u: MessageUsage, v: MessageUsage)
    requires
        uses_no_less(u, v),
        u.fast == v.fast,
    ensures
        billed(m, u) <= billed(m, v),
{
    let t = price_of(m);
    lemma_prices(m);
    let (h1, h2) = (kept_an_hour(u), kept_an_hour(v));
    let (q1, q2) = ((u.cache_creation - h1) as nat, (v.cache_creation - h2) as nat);
    lemma_at_price(u.input as nat, v.input as nat, t.input);
    lemma_at_price(q1, q2, t.cache_write_5m);
    lemma_at_price(h1, h2, t.cache_write_1h);
    lemma_at_price(u.cache_read as nat, v.cache_read as nat, t.cache_read);
    lemma_at_price(u.output as nat, v.output as nat, t.output);
    let (a1, a2) = (at_price(u.input as nat, t.input), at_price(v.input as nat, t.input));
    let (b1, b2) = (at_price(q1, t.cache_write_5m), at_price(q2, t.cache_write_5m));
    let (c1, c2) = (at_price(h1, t.cache_write_1h), at_price(h2, t.cache_write_1h));
    let (d1, d2) = (
        at_price(u.cache_read as nat, t.cache_read),
        at_price(v.cache_read as nat, t.cache_read),
    );
    let (e1, e2) = (at_price(u.output as nat, t.output), at_price(v.output as nat, t.output));
    sums_grow(a1, a2, b1, b2);
    sums_grow(plus(a1, b1), plus(a2, b2), c1, c2);
    sums_grow(plus(plus(a1, b1), c1), plus(plus(a2, b2), c2), d1, d2);
    sums_grow(plus(plus(plus(a1, b1), c1), d1), plus(plus(plus(a2, b2), c2), d2), e1, e2);
    lemma_cost(t, u, v);
}

/// Where the tokens cost no less, neither does the answer.
proof fn lemma_cost(t: Tariff, u: MessageUsage, v: MessageUsage)
    requires
        u.fast == v.fast,
        u.web_search_requests <= v.web_search_requests,
        is_price(t.fast_multiplier),
        is_amount(token_cost(t, u)),
        is_amount(token_cost(t, v)),
        at_most(token_cost(t, u), token_cost(t, v)),
    ensures
        cut(half_away(cost(t, u)), 0, u64::MAX as int) <= cut(
            half_away(cost(t, v)),
            0,
            u64::MAX as int,
        ),
{
    let (n1, n2) = (u.web_search_requests as nat, v.web_search_requests as nat);
    let cent = over(ratio_value(10, 1), ratio_value(1000, 1));
    moderate_quotients(10, 1000);
    counts_are_finite(1);
    counts_are_finite(1_000_000);
    whole_numbers_grow(n1, n2);
    let (x1, x2) = (ratio_value(n1, 1), ratio_value(n2, 1));
    products_grow(x1, x2, cent);
    products_grow(times(x1, cent), times(x2, cent), ratio_value(1_000_000, 1));
    let factor = if u.fast {
        t.fast_multiplier
    } else {
        ratio_value(1, 1)
    };
    products_grow(token_cost(t, u), token_cost(t, v), factor);
    sums_grow(
        times(token_cost(t, u), factor),
        times(token_cost(t, v), factor),
        search_cost(n1),
        search_cost(n2),
    );
    wholes_grow(cost(t, u), cost(t, v));
    cuts_grow(half_away(cost(t, u)), half_away(cost(t, v)), u64::MAX as int);
}

/// Whether an answer is fast makes no difference where the multiplier is one.
pub proof fn fast_answers_at_the_same_price(t: Tariff, u: MessageUsage, v: MessageUsage)
    requires
        t.fast_multiplier == ratio_value(1, 1),
        v == (MessageUsage { fast: !u.fast, ..u }),
    ensures
        cost(t, u) == cost(t, v),
{
}

/// The list prices in whole numbers: cents per million tokens of input and of
/// reading from a cache, dollars per million tokens of output, and how many times
/// the price a fast answer costs.
pub open spec fn list_price(m: Model) -> (nat, nat, nat, nat) {
    match m {
        Model::Fable51 => (1000, 25, 50, 1),
        Model::Fable5 => (1000, 100, 50, 1),
        Model::Opus55 => (400, 20, 20, 2),
        Model::Opus5 => (500, 50, 25, 2),
        Model::Opus48 => (500, 50, 25, 2),
        Model::Opus45 => (500, 50, 25, 1),
        Model::Opus4 => (1500, 150, 75, 1),
        Model::Sonnet5 => (200, 20, 10, 1),
        Model::Sonnet4 => (300, 30, 15, 1),
        Model::Haiku45 => (100, 10, 5, 1),
        Model::Haiku35 => (80, 8, 4, 1),
    }
}

/// The exact cost of an answer in 400ths of a millionth of a dollar. What is
/// written to a cache costs five quarters of the input price, and twice that price
/// where it is kept for an hour; a fast answer costs the multiple of the model,
/// and a search a cent however fast the answer is.
pub open spec fn exact_cost(m: Model, u: MessageUsage) -> nat {
    let (input, read, output, fast) = list_price(m);
    let hour = if u.cache_creation_1h <= u.cache_creation {
        u.cache_creation_1h as int
    } else {
        u.cache_creation as int
    };
    let minutes = u.cache_creation - hour;
    let tokens = u.input * (4 * input) + minutes * (5 * input) + hour * (8 * input) + u.cache_read
        * (4 * read) + u.output * (400 * output);
    ((if u.fast {
        tokens * fast
    } else {
        tokens
    }) + u.web_search_requests * 4_000_000) as nat
}

/// `v` is `x` 400ths, but for `j` parts in `2^53`.
spec fn is_worth(v: Value, x: int, j: int) -> bool {
    &&& v matches Value::Fin { neg, .. } && !neg
    &&& -(j * (x * pow2(1074))) <= (400 * steps_of(v) - x * pow2(1074)) * 0x20_0000_0000_0000 <= j
        * (x * pow2(1074))
}

proof fn lemma_worth_bounds(v: Value, x: int, j: int, n: int)
    requires
        is_worth(v, x, j),
        0 <= x <= 200 * n,
        0 <= j <= 100,
    ensures
        0 <= steps_of(v) <= n * pow2(1074),
        x == 0 ==> steps_of(v) == 0,
        x > 0 ==> 2 * (400 * steps_of(v)) >= pow2(1074),
{
    let p = pow2(1074) as int;
    one_has_many_steps();
    let s = steps_of(v);
    let e = x * p;
    if let Value::Fin { mant, exp, .. } = v {
        assert(mant * pow2(exp) >= 0) by (nonlinear_arith);
    }
    assert(0 <= j * e <= 100 * e) by (nonlinear_arith)
        requires
            0 <= j <= 100,
            e == x * p,
            x >= 0,
            p > 0,
    {
        assert(e >= 0);
    }
    assert(e <= 200 * (n * p) && (x > 0 ==> e >= p) && (x == 0 ==> e == 0)) by (nonlinear_arith)
        requires
            e == x * p,
            0 <= x <= 200 * n,
            p > 0,
    ;
}

proof fn lemma_worth_less_exactly(v: Value, x: int, j: int, k: int)
    requires
        is_worth(v, x, j),
        j <= k,
        x >= 0,
    ensures
        is_worth(v, x, k),
{
    let p = pow2(1074) as int;
    lemma_pow2_pos(1074);
    let e = x * p;
    assert(j * e <= k * e) by (nonlinear_arith)
        requires
            j <= k,
            e == x * p,
            x >= 0,
            p > 0,
    {
        assert(e >= 0);
    }
}

/// Some tokens at a price.
proof fn lemma_worth_of_tokens(price: Value, c: int, n: nat)
    requires
        is_worth(price, c, 4),
        0 < c <= 30_000,
        n < 1_000_000_000_000,
    ensures
        is_worth(at_price(n, price), n * c, 8),
{
    let p = pow2(1074) as int;
    one_has_many_steps();
    lemma_worth_bounds(price, c, 4, 150);
    let s = steps_of(price);
    assert(n * s <= (150 * n) * p) by (nonlinear_arith)
        requires
            0 <= s <= 150 * p,
    ;
    multiples_are_close(price, n, 150 * n);
    whole_numbers_are_exact(n);
    products_commute(ratio_value(n, 1), price);
    let y = steps_of(at_price(n, price));
    let (e, f, g) = (c * p, (n * c) * p, n * s);
    assert(f == n * e && 4 * f == n * (4 * e) && (n == 0 ==> g == 0 && f == 0) && (n > 0 ==> g >= s)
        && f >= 0) by (nonlinear_arith)
        requires
            e == c * p,
            f == (n * c) * p,
            g == n * s,
            s >= 0,
            c > 0,
            p > 0,
    ;
    assert(-(4 * f) <= (400 * g - f) * 0x20_0000_0000_0000 <= 4 * f) by (nonlinear_arith)
        requires
            -(4 * e) <= (400 * s - e) * 0x20_0000_0000_0000 <= 4 * e,
            f == n * e,
            g == n * s,
    {
        assert((400 * g - f) * 0x20_0000_0000_0000 == n * ((400 * s - e) * 0x20_0000_0000_0000));
        assert(n * (4 * e) == 4 * f);
        assert(n * (-(4 * e)) == -(4 * f));
    }
    assert(8 * ((n * c) * p) == 8 * f);
}

/// A sum of what is worth something.
proof fn lemma_worth_of_sums(a: Value, x: int, b: Value, y: int, j: int)
    requires
        is_worth(a, x, j),
        is_worth(b, y, j),
        0 <= x,
        0 <= y,
        x + y <= 1_000_000_000_000_000_000,
        0 <= j <= 90,
    ensures
        is_worth(plus(a, b), x + y, j + 2),
{
    let p = pow2(1074) as int;
    one_has_many_steps();
    lemma_worth_bounds(a, x, j, 5_000_000_000_000_000);
    lemma_worth_bounds(b, y, j, 5_000_000_000_000_000);
    let (s, t) = (steps_of(a), steps_of(b));
    let (e, f, g) = (x * p, y * p, (x + y) * p);
    assert(g == e + f && j * g == j * e + j * f && 0 <= e && 0 <= f && (j + 2) * g == j * g + 2 * g
        && 0 <= j * g <= 90 * g && g <= 1_000_000_000_000_000_000 * p) by (nonlinear_arith)
        requires
            e == x * p,
            f == y * p,
            g == (x + y) * p,
            x >= 0,
            y >= 0,
            x + y <= 1_000_000_000_000_000_000,
            0 <= j <= 90,
            p > 0,
    {
        assert(x * p >= 0);
        assert(y * p >= 0);
    }
    assert(400 * (s + t) <= 2 * g);
    sums_are_close(a, b, 5_000_000_000_000_001);
}

/// A whole multiple of what is worth something.
proof fn lemma_worth_of_multiples(v: Value, x: int, k: nat, j: int)
    requires
        is_worth(v, x, j),
        0 <= x,
        x * k <= 1_000_000_000_000_000_000,
        0 < k <= 1_000_000,
        0 <= j <= 90,
    ensures
        is_worth(times(v, ratio_value(k, 1)), x * k, j + 4),
{
    let p = pow2(1074) as int;
    one_has_many_steps();
    let s = steps_of(v);
    assert(x <= 1_000_000_000_000_000_000) by (nonlinear_arith)
        requires
            x * k <= 1_000_000_000_000_000_000,
            k >= 1,
            x >= 0,
    ;
    lemma_worth_bounds(v, x, j, 5_000_000_000_000_000);
    let (e, f, g) = (x * p, (x * k) * p, k * s);
    assert(f == k * e && j * f == k * (j * e) && 0 <= e && 0 <= f && 0 <= j * f <= 90 * f && (j + 4)
        * f == j * f + 4 * f && f <= 1_000_000_000_000_000_000 * p) by (nonlinear_arith)
        requires
            e == x * p,
            f == (x * k) * p,
            0 <= x,
            x * k <= 1_000_000_000_000_000_000,
            k > 0,
            0 <= j <= 90,
            p > 0,
    {
        assert(x * k >= 0);
        assert(x * p >= 0);
    }
    assert(-(j * f) <= (400 * g - f) * 0x20_0000_0000_0000 <= j * f) by (nonlinear_arith)
        requires
            -(j * e) <= (400 * s - e) * 0x20_0000_0000_0000 <= j * e,
            f == k * e,
            j * f == k * (j * e),
            g == k * s,
            k > 0,
    {
        assert((400 * g - f) * 0x20_0000_0000_0000 == k * ((400 * s - e) * 0x20_0000_0000_0000));
        assert(k * (-(j * e)) == -(k * (j * e)));
    }
    assert(400 * g <= 2 * f);
    multiples_are_close(v, k, 5_000_000_000_000_001);
    assert(x == 0 ==> g == 0) by (nonlinear_arith)
        requires
            x == 0 ==> s == 0,
            g == k * s,
    ;
    assert(x > 0 ==> g >= s) by (nonlinear_arith)
        requires
            g == k * s,
            s >= 0,
            k >= 1,
    ;
}

/// What the prices of a model are worth.
proof fn lemma_worth_of_prices(m: Model)
    ensures
        ({
            let (input, read, output, fast) = list_price(m);
            let t = price_of(m);
            &&& is_worth(t.input, 4 * input as int, 4)
            &&& is_worth(t.cache_write_5m, 5 * input as int, 4)
            &&& is_worth(t.cache_write_1h, 8 * input as int, 4)
            &&& is_worth(t.cache_read, 4 * read as int, 4)
            &&& is_worth(t.output, 400 * output as int, 4)
            &&& t.fast_multiplier == ratio_value(fast, 1)
        }),
{
    let (input, read, output, fast) = list_price(m);
    let p = pow2(1074) as int;
    one_has_many_steps();
    fractions_are_close(input, 100);
    fractions_are_close(read, 100);
    whole_numbers_are_exact(output);
    fractions_are_close(125, 100);
    fractions_are_close(2, 1);
    let price = ratio_value(input, 100);
    positive_numbers_have_steps(price);
    let i = steps_of(price);
    assert((4 * input) * p == 4 * (input * p) && (5 * input) * p == 5 * (input * p) && (8 * input)
        * p == 8 * (input * p) && (4 * read) * p == 4 * (read * p) && (400 * output) * p == 400 * (
    output * p) && 0 <= input * p && 0 <= read * p && 0 <= output * p && input * p <= 1500 * p
        && input * p >= 80 * p) by (nonlinear_arith)
        requires
            80 <= input <= 1500,
            read >= 0,
            output >= 0,
            p > 0,
    ;
    lemma_worth_of_products(price, input as int, ratio_value(125, 100), 125, 100);
    lemma_worth_of_products(price, input as int, ratio_value(2, 1), 2, 1);
}

/// A price of `c` cents times `num / den`.
proof fn lemma_worth_of_products(price: Value, c: int, factor: Value, num: int, den: int)
    requires
        80 <= c <= 1500,
        (num == 125 && den == 100) || (num == 2 && den == 1),
        is_positive(price),
        is_positive(factor),
        is_close(steps_of(price) * 100, c * pow2(1074), 0x20_0000_0000_0000),
        is_close(steps_of(factor) * den, num * pow2(1074), 0x20_0000_0000_0000),
    ensures
        num == 125 ==> is_worth(times(price, factor), 5 * c, 4),
        num == 2 ==> is_worth(times(price, factor), 8 * c, 4),
{
    let p = pow2(1074) as int;
    one_has_many_steps();
    let (x, y) = (steps_of(price), steps_of(factor));
    let e = c * p;
    assert(80 * p <= e <= 1500 * p) by (nonlinear_arith)
        requires
            e == c * p,
            80 <= c <= 1500,
            p > 0,
    ;
    // Bounds that rounding leaves beyond doubt.
    assert(3 * x >= p && x <= 16 * p && y >= p && y <= 3 * p);
    assert(x * y >= 0 && 3 * (x * y) >= p * p && x * y <= 48 * (p * p)) by (nonlinear_arith)
        requires
            3 * x >= p,
            x <= 16 * p,
            y >= p,
            y <= 3 * p,
            p > 0,
            x > 0,
            y > 0,
    {
        assert((3 * x) * y >= p * p);
        assert(x * y <= (16 * p) * (3 * p));
    }
    assert(0x10_0000_0000_0000 * p <= x * y && x * y <= (48 * p) * p) by (nonlinear_arith)
        requires
            3 * (x * y) >= p * p,
            x * y <= 48 * (p * p),
            p >= 0x1_0000_0000_0000_0000 * 0x1_0000_0000_0000_0000,
    {
        assert(p * p >= (0x1_0000_0000_0000_0000 * 0x1_0000_0000_0000_0000) * p);
    }
    products_are_close(price, factor, 48);
    let z = steps_of(times(price, factor));
    let (u, v, w) = (x * 100, y * den, num * p);
    let k = 100 * den;
    lemma_scaled(u, e, v);
    lemma_scaled(v, w, e);
    lemma_scaled(z * p, x * y, k);
    assert(v >= 0 && w >= 0) by (nonlinear_arith)
        requires
            v == y * den,
            w == num * p,
            y > 0,
            den > 0,
            num > 0,
            p > 0,
    ;
    assert((x * y) * k == u * v && v * e == e * v && w * e == (c * num) * p * p && (z * p) * k == (k
        * z) * p && u * v >= 0 && e * v >= 0 && w * e >= 0) by (nonlinear_arith)
        requires
            u == x * 100,
            v == y * den,
            w == num * p,
            k == 100 * den,
            e == c * p,
            x > 0,
            v >= 0,
            w >= 0,
            e >= 0,
    ;
    let (d, f) = (k * z, (c * num) * p);
    lemma_three_roundings(d * p, u * v, e * v, f * p);
    assert(-(4 * f) <= (d - f) * 0x20_0000_0000_0000 <= 4 * f) by (nonlinear_arith)
        requires
            -(4 * (f * p)) <= (d * p - f * p) * 0x20_0000_0000_0000 <= 4 * (f * p),
            p > 0,
    {
        assert((d * p - f * p) * 0x20_0000_0000_0000 == ((d - f) * 0x20_0000_0000_0000) * p);
        assert(4 * (f * p) == (4 * f) * p);
        assert(-(4 * (f * p)) == (-(4 * f)) * p);
    }
    if num == 125 {
        assert(f == 25 * ((5 * c) * p) && d == 25 * (400 * z)) by (nonlinear_arith)
            requires
                f == (c * num) * p,
                d == k * z,
                k == 100 * den,
                num == 125,
                den == 100,
        ;
    } else {
        assert(4 * f == (8 * c) * p && 4 * d == 400 * z) by (nonlinear_arith)
            requires
                f == (c * num) * p,
                d == k * z,
                k == 100 * den,
                num == 2,
                den == 1,
        ;
    }
}

proof fn lemma_scaled(a: int, b: int, c: int)
    requires
        is_close(a, b, 0x20_0000_0000_0000),
        c >= 0,
    ensures
        is_close(a * c, b * c, 0x20_0000_0000_0000),
{
    assert(-(b * c) <= (a * c - b * c) * 0x20_0000_0000_0000 <= b * c) by (nonlinear_arith)
        requires
            -b <= (a - b) * 0x20_0000_0000_0000 <= b,
            c >= 0,
    {
        assert((a * c - b * c) * 0x20_0000_0000_0000 == ((a - b) * 0x20_0000_0000_0000) * c);
        assert(-(b * c) == (-b) * c);
    }
}

proof fn lemma_three_roundings(w: int, y: int, z: int, t: int)
    requires
        is_close(w, y, 0x20_0000_0000_0000),
        is_close(y, z, 0x20_0000_0000_0000),
        is_close(z, t, 0x20_0000_0000_0000),
        0 <= y,
        0 <= z,
        0 <= t,
    ensures
        -(4 * t) <= (w - t) * 0x20_0000_0000_0000 <= 4 * t,
{
}

/// The cost of some searches.
proof fn lemma_worth_of_searches(n: nat)
    requires
        n < 1_000_000_000,
    ensures
        is_worth(search_cost(n), n as int * 4_000_000, 12),
{
    let p = pow2(1074) as int;
    one_has_many_steps();
    whole_numbers_are_exact(10);
    whole_numbers_are_exact(1000);
    let (a, b) = (ratio_value(10, 1), ratio_value(1000, 1));
    positive_numbers_have_steps(b);
    assert(0x10_0000_0000_0000 * (1000 * p) <= (10 * p) * p) by (nonlinear_arith)
        requires
            p >= 0x1_0000_0000_0000_0000 * 0x1_0000_0000_0000_0000,
    ;
    quotients_are_close(a, b, 1);
    let cent = over(a, b);
    let c = steps_of(cent);
    assert(-p <= (100 * c - p) * 0x20_0000_0000_0000 <= p) by (nonlinear_arith)
        requires
            -((10 * p) * p) <= (c * (1000 * p) - (10 * p) * p) * 0x20_0000_0000_0000 <= (10 * p) * p,
            p > 0,
    {
        let q = 10 * p;
        assert((c * (1000 * p) - (10 * p) * p) * 0x20_0000_0000_0000 == ((100 * c - p)
            * 0x20_0000_0000_0000) * q);
        assert((10 * p) * p == p * q);
        assert(-((10 * p) * p) == (-p) * q);
    }
    assert(is_worth(cent, 4, 4));
    lemma_worth_of_tokens(cent, 4, n);
    lemma_worth_of_multiples(at_price(n, cent), n as int * 4, 1_000_000, 8);
}

/// What an answer is billed is its exact cost, rounded to a whole millionth of a
/// dollar: every token at the price of its kind, and every search. Twice the two
/// differ by at most 400 of the 400ths that the exact cost counts in, and one part
/// in `2^40` of it for the rounding of the arithmetic.
pub proof fn bills_are_exact(m: Model, u: MessageUsage)
    requires
        u.input < 1_000_000_000_000,
        u.output < 1_000_000_000_000,
        u.cache_creation < 1_000_000_000_000,
        u.cache_read < 1_000_000_000_000,
        u.web_search_requests < 1_000_000_000,
    ensures
        -(0x1_9000_0000_0000 + exact_cost(m, u)) <= (800 * billed(m, u) - 2 * exact_cost(m, u))
            * 0x100_0000_0000 <= 0x1_9000_0000_0000 + exact_cost(m, u),
{
    let t = price_of(m);
    let (input, read, output, fast) = list_price(m);
    let hour = kept_an_hour(u);
    let minutes = (u.cache_creation - hour) as nat;
    lemma_worth_of_prices(m);
    let (x1, x2, x3, x4, x5) = (
        u.input as int * (4 * input),
        minutes as int * (5 * input),
        hour as int * (8 * input),
        u.cache_read as int * (4 * read),
        u.output as int * (400 * output),
    );
    lemma_worth_of_tokens(t.input, (4 * input) as int, u.input as nat);
    lemma_worth_of_tokens(t.cache_write_5m, (5 * input) as int, minutes);
    lemma_worth_of_tokens(t.cache_write_1h, (8 * input) as int, hour);
    lemma_worth_of_tokens(t.cache_read, (4 * read) as int, u.cache_read as nat);
    lemma_worth_of_tokens(t.output, (400 * output) as int, u.output as nat);
    lemma_at_most(u.input as int, 4 * input as int);
    lemma_at_most(minutes as int, 5 * input as int);
    lemma_at_most(hour as int, 8 * input as int);
    lemma_at_most(u.cache_read as int, 4 * read as int);
    lemma_at_most(u.output as int, 400 * output as int);
    let a = at_price(u.input as nat, t.input);
    let b = at_price(minutes, t.cache_write_5m);
    let c = at_price(hour, t.cache_write_1h);
    let d = at_price(u.cache_read as nat, t.cache_read);
    let e = at_price(u.output as nat, t.output);
    lemma_worth_of_sums(a, x1, b, x2, 8);
    lemma_worth_less_exactly(c, x3, 8, 10);
    lemma_worth_of_sums(plus(a, b), x1 + x2, c, x3, 10);
    lemma_worth_less_exactly(d, x4, 8, 12);
    lemma_worth_of_sums(plus(plus(a, b), c), x1 + x2 + x3, d, x4, 12);
    lemma_worth_less_exactly(e, x5, 8, 14);
    lemma_worth_of_sums(plus(plus(plus(a, b), c), d), x1 + x2 + x3 + x4, e, x5, 14);
    let tokens = token_cost(t, u);
    let x = x1 + x2 + x3 + x4 + x5;
    assert(is_worth(tokens, x, 16));
    let factor = if u.fast {
        fast
    } else {
        1
    };
    assert(x * factor <= 2 * x && x * factor >= 0 && (factor == 1 ==> x * factor == x))
        by (nonlinear_arith)
        requires
            1 <= factor <= 2,
            x >= 0,
    ;
    lemma_worth_of_multiples(tokens, x, factor, 16);
    let n = u.web_search_requests as nat;
    lemma_worth_of_searches(n);
    lemma_worth_less_exactly(search_cost(n), n as int * 4_000_000, 12, 20);
    let whole = cost(t, u);
    let total = x * factor + n * 4_000_000;
    lemma_worth_of_sums(
        times(tokens, ratio_value(factor, 1)),
        x * factor,
        search_cost(n),
        n as int * 4_000_000,
        20,
    );
    assert(is_worth(whole, total, 22));
    assert(exact_cost(m, u) == total);
    lemma_worth_bounds(whole, total, 22, 5_000_000_000_000_000);
    amounts_round_within_a_half(whole, 5_000_000_000_000_000, u64::MAX as int);
    lemma_bill_in_integers(billed(m, u), total, pow2(1074) as int, steps_of(whole));
}

proof fn lemma_at_most(n: int, c: int)
    requires
        0 <= n < 1_000_000_000_000,
        0 <= c <= 30_000,
    ensures
        0 <= n * c <= 30_000_000_000_000_000,
{
    assert(0 <= n * c <= 30_000_000_000_000_000) by (nonlinear_arith)
        requires
            0 <= n < 1_000_000_000_000,
            0 <= c <= 30_000,
    ;
}

proof fn lemma_bill_in_integers(n: int, total: int, p: int, s: int)
    requires
        p > 0,
        total >= 0,
        -(22 * (total * p)) <= (400 * s - total * p) * 0x20_0000_0000_0000 <= 22 * (total * p),
        (2 * n - 1) * p <= 2 * s < (2 * n + 1) * p,
    ensures
        -(0x1_9000_0000_0000 + total) <= (800 * n - 2 * total) * 0x100_0000_0000 <= 0x1_9000_0000_0000
            + total,
{
    let (e, k) = (total * p, n * p);
    assert((2 * n - 1) * p == 2 * k - p && (2 * n + 1) * p == 2 * k + p && e >= 0) by (nonlinear_arith)
        requires
            e == total * p,
            k == n * p,
            total >= 0,
            p > 0,
    ;
    let lim = 0x1_9000_0000_0000 + total;
    let v = (800 * n - 2 * total) * 0x100_0000_0000;
    assert(lim * p == 0x1_9000_0000_0000 * p + e && v * p == (800 * k - 2 * e) * 0x100_0000_0000)
        by (nonlinear_arith)
        requires
            e == total * p,
            k == n * p,
            lim == 0x1_9000_0000_0000 + total,
            v == (800 * n - 2 * total) * 0x100_0000_0000,
    ;
    lemma_bill_in_steps(k, e, p, s);
    assert(-lim <= v <= lim) by (nonlinear_arith)
        requires
            -(lim * p) <= v * p <= lim * p,
            p > 0,
    {
        assert(-(lim * p) == (-lim) * p);
    }
}

proof fn lemma_bill_in_steps(k: int, e: int, p: int, s: int)
    requires
        e >= 0,
        -(22 * e) <= (400 * s - e) * 0x20_0000_0000_0000 <= 22 * e,
        2 * k - p <= 2 * s < 2 * k + p,
    ensures
        -(0x1_9000_0000_0000 * p + e) <= (800 * k - 2 * e) * 0x100_0000_0000
            <= 0x1_9000_0000_0000 * p + e,
{
}

/// A model that is not listed is billed as the current one of its family, whatever
/// else its identifier says; one of no family is not billed.
pub proof fn unlisted_models_go_by_their_family(id: Seq<char>)
    requires
        first_listed(untagged(id), 0) is None,
    ensures
        has_text(untagged(id), "fable"@) || has_text(untagged(id), "mythos"@) ==> billed_as(id)
            == Some(Model::Fable51),
        ({
            let newest = has_text(untagged(id), "fable"@) || has_text(untagged(id), "mythos"@);
            let opus = has_text(untagged(id), "opus"@);
            let sonnet = has_text(untagged(id), "sonnet"@);
            let haiku = has_text(untagged(id), "haiku"@);
            &&& !newest && opus ==> billed_as(id) == Some(Model::Opus55)
            &&& !newest && !opus && sonnet ==> billed_as(id) == Some(Model::Sonnet5)
            &&& !newest && !opus && !sonnet && haiku ==> billed_as(id) == Some(Model::Haiku45)
            &&& !newest && !opus && !sonnet && !haiku ==> billed_as(id) is None
        }),
{
}

/// What follows a listed name in an identifier makes no difference, as long as no
/// longer name is listed that goes on in the same way.
pub proof fn endings_are_ignored(id: Seq<char>, k: int)
    requires
        0 <= k < price_list().len(),
        forall|i: int| 0 <= i < id.len() ==> id[i] != '[',
        identifier(price_list()[k].0).is_prefix_of(id),
        forall|j: int|
            0 <= j < price_list().len() && identifier(
                (#[trigger] price_list()[j]).0,
            ).is_prefix_of(id) ==> price_list()[j].0.len() <= price_list()[k].0.len(),
    ensures
        billed_as(id) == Some(price_list()[k].1),
{
    lemma_untagged(id, id.len() as int);
    assert(id.take(id.len() as int) =~= id);
    most_specific_entry_wins(id, 0, k);
}

} // verus!
