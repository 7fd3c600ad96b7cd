use claude_o_meter::double::Double;
use claude_o_meter::icons::{
    alpha_channel, badged_split, draw_alarm_badge, icon_mask, tinted, tinted_split, Band, BADGE_CX,
    BADGE_CY, BADGE_R, BADGE_R_FILL, ICON_SIZE,
};
use claude_o_meter::pricing::{cost_micros, rates_for, MessageUsage, Model};

fn d(x: f64) -> Double {
    Double::from_bits(x.to_bits())
}

fn f(x: Double) -> f64 {
    f64::from_bits(x.bits)
}

/// The identifier of a model: the name of the product, a hyphen and `rest`.
fn id(rest: &str) -> String {
    let product = "claude_o_meter".split('_').next().unwrap();
    format!("{product}-{rest}")
}

#[test]
fn band_thresholds() {
    assert_eq!(Band::from_fraction(d(0.0)), Band::Blue);
    assert_eq!(Band::from_fraction(d(0.24)), Band::Blue);
    assert_eq!(Band::from_fraction(d(0.25)), Band::Green);
    assert_eq!(Band::from_fraction(d(0.49)), Band::Green);
    assert_eq!(Band::from_fraction(d(0.50)), Band::Yellow);
    assert_eq!(Band::from_fraction(d(0.74)), Band::Yellow);
    assert_eq!(Band::from_fraction(d(0.75)), Band::Orange);
    assert_eq!(Band::from_fraction(d(0.94)), Band::Orange);
    assert_eq!(Band::from_fraction(d(0.95)), Band::Red);
    assert_eq!(Band::from_fraction(d(1.5)), Band::Red);
    assert_eq!(Band::from_fraction(d(f64::NAN)), Band::Red);
    assert_eq!(Band::from_fraction(d(-1.0)), Band::Blue);
}

#[test]
fn mask_has_correct_size() {
    assert_eq!(icon_mask().len(), ICON_SIZE * ICON_SIZE);
}

#[test]
fn mask_has_lit_and_unlit_pixels() {
    let mask = icon_mask();
    assert!(mask.iter().any(|&a| a > 200), "no opaque pixels");
    assert!(mask.contains(&0), "no transparent pixels");
}

#[test]
fn tint_uses_band_color() {
    let mask = icon_mask();
    let opaque_idx = mask.iter().position(|&a| a > 200).unwrap();
    let rgba = tinted(Band::Green, &mask);
    let off = opaque_idx * 4;
    assert_eq!(&rgba[off..off + 3], &Band::Green.rgb());
    assert!(rgba[off + 3] > 200);
}

#[test]
fn tint_preserves_alpha() {
    let mask = icon_mask();
    let rgba = tinted(Band::Blue, &mask);
    for (i, &a) in mask.iter().enumerate() {
        assert_eq!(rgba[i * 4 + 3], a);
    }
}

#[test]
fn rgba_buffer_has_correct_length() {
    let rgba = tinted(Band::Red, &icon_mask());
    assert_eq!(rgba.len(), ICON_SIZE * ICON_SIZE * 4);
}

#[test]
fn split_tint_left_half_uses_left_rgb() {
    let mask = icon_mask();
    let rgba = tinted_split(Band::Blue, Band::Red, &mask);
    let mid = ICON_SIZE / 2;
    let idx = mask
        .iter()
        .enumerate()
        .find(|(i, a)| **a > 200 && *i % ICON_SIZE < mid)
        .expect("an opaque mask pixel in left half")
        .0;
    let off = idx * 4;
    assert_eq!(&rgba[off..off + 3], &Band::Blue.rgb());
    assert!(rgba[off + 3] > 200);
}

#[test]
fn split_tint_right_half_uses_right_rgb() {
    let mask = icon_mask();
    let rgba = tinted_split(Band::Blue, Band::Red, &mask);
    let mid = ICON_SIZE / 2;
    let idx = mask
        .iter()
        .enumerate()
        .find(|(i, a)| **a > 200 && *i % ICON_SIZE >= mid)
        .expect("an opaque mask pixel in the right half")
        .0;
    let off = idx * 4;
    assert_eq!(&rgba[off..off + 3], &Band::Red.rgb());
    assert!(rgba[off + 3] > 200);
}

#[test]
fn split_tint_preserves_alpha() {
    let mask = icon_mask();
    let rgba = tinted_split(Band::Blue, Band::Red, &mask);
    for (i, &a) in mask.iter().enumerate() {
        assert_eq!(rgba[i * 4 + 3], a);
    }
    assert_eq!(alpha_channel(&rgba), mask);
}

#[test]
fn badged_icon_has_correct_length() {
    let mut rgba = tinted_split(Band::Blue, Band::Red, &icon_mask());
    draw_alarm_badge(&mut rgba);
    assert_eq!(rgba.len(), ICON_SIZE * ICON_SIZE * 4);
}

#[test]
fn badge_writes_opaque_alarm_pixels() {
    let mut rgba = tinted_split(Band::Blue, Band::Blue, &icon_mask());
    draw_alarm_badge(&mut rgba);
    let off = (BADGE_CY as usize * ICON_SIZE + BADGE_CX as usize) * 4;
    let fill_off =
        ((BADGE_CY + BADGE_R_FILL - 1) as usize * ICON_SIZE + (BADGE_CX + 3) as usize) * 4;
    assert_eq!(&rgba[fill_off..fill_off + 4], &[0xFF, 0x3B, 0x30, 0xFF]);
    assert_eq!(rgba[off + 3], 0xFF, "glyph pixel is opaque");
    assert_eq!(&rgba[off..off + 4], &[0xFF, 0xFF, 0xFF, 0xFF]);
    let ring = (BADGE_CY as usize * ICON_SIZE + (BADGE_CX + BADGE_R) as usize) * 4;
    assert_eq!(&rgba[ring..ring + 4], &[0x99, 0x20, 0x18, 0xFF]);
}

#[test]
fn badge_is_purely_additive() {
    let mask = icon_mask();
    let plain = tinted_split(Band::Green, Band::Orange, &mask);
    let badged = {
        let mut b = plain.clone();
        draw_alarm_badge(&mut b);
        b
    };
    for y in 0..ICON_SIZE as i32 {
        for x in 0..ICON_SIZE as i32 {
            let outside = (x - BADGE_CX).pow(2) + (y - BADGE_CY).pow(2) > BADGE_R * BADGE_R;
            if outside {
                let off = ((y as usize) * ICON_SIZE + x as usize) * 4;
                assert_eq!(&plain[off..off + 4], &badged[off..off + 4]);
            }
        }
    }
    assert_eq!(badged_split(Band::Green, Band::Orange, true, &mask), badged);
    assert_eq!(badged_split(Band::Green, Band::Orange, false, &mask), plain);
}

#[test]
fn most_specific_prefix_wins() {
    assert_eq!(rates_for(&id("opus-5-5")), Some(Model::Opus55.rates()));
    assert_eq!(rates_for(&id("opus-5")), Some(Model::Opus5.rates()));
    assert_eq!(rates_for(&id("fable-5-1")), Some(Model::Fable51.rates()));
    assert_eq!(rates_for(&id("fable-5")), Some(Model::Fable5.rates()));
}

#[test]
fn strips_context_tag_and_date_suffix() {
    assert_eq!(rates_for(&id("opus-5-5[1m]")), Some(Model::Opus55.rates()));
    assert_eq!(rates_for(&id("haiku-4-5-20251001")), Some(Model::Haiku45.rates()));
}

#[test]
fn unknown_family_member_falls_back() {
    assert_eq!(rates_for(&id("sonnet-6")), Some(Model::Sonnet5.rates()));
    assert_eq!(rates_for("<synthetic>"), None);
    assert_eq!(rates_for("new-mythos"), Some(Model::Fable51.rates()));
    assert_eq!(rates_for("an opus"), Some(Model::Opus55.rates()));
    assert_eq!(rates_for("haiku"), Some(Model::Haiku45.rates()));
    assert_eq!(rates_for("[opus]"), None);
    assert_eq!(rates_for("opus-4"), Some(Model::Opus55.rates()));
}

#[test]
fn opus_5_5_cache_read_is_0_05x() {
    let r = Model::Opus55.rates();
    assert_eq!(f(r.cache_read), f(r.input) * 0.05);
}

#[test]
fn prices_are_those_of_the_list() {
    let rows: [(Model, f64, f64, f64, f64); 11] = [
        (Model::Fable51, 10.0, 0.25, 50.0, 1.0),
        (Model::Fable5, 10.0, 1.0, 50.0, 1.0),
        (Model::Opus55, 4.0, 0.20, 20.0, 2.0),
        (Model::Opus5, 5.0, 0.50, 25.0, 2.0),
        (Model::Opus48, 5.0, 0.50, 25.0, 2.0),
        (Model::Opus45, 5.0, 0.50, 25.0, 1.0),
        (Model::Opus4, 15.0, 1.50, 75.0, 1.0),
        (Model::Sonnet5, 2.0, 0.20, 10.0, 1.0),
        (Model::Sonnet4, 3.0, 0.30, 15.0, 1.0),
        (Model::Haiku45, 1.0, 0.10, 5.0, 1.0),
        (Model::Haiku35, 0.80, 0.08, 4.0, 1.0),
    ];
    for (m, input, read, output, fast) in rows {
        let r = m.rates();
        assert_eq!(f(r.input), input);
        assert_eq!(f(r.cache_write_5m), input * 1.25);
        assert_eq!(f(r.cache_write_1h), input * 2.0);
        assert_eq!(f(r.cache_read), read);
        assert_eq!(f(r.output), output);
        assert_eq!(f(r.fast_multiplier), fast);
    }
}

#[test]
fn cost_splits_cache_ttl() {
    let u = MessageUsage {
        input: 1_000_000,
        output: 1_000_000,
        cache_creation: 2_000_000,
        cache_creation_1h: 1_000_000,
        cache_read: 1_000_000,
        ..Default::default()
    };
    assert_eq!(cost_micros(&id("opus-5"), &u), 46_750_000);
}

#[test]
fn fast_mode_and_web_search() {
    let u = MessageUsage {
        output: 1_000_000,
        web_search_requests: 3,
        fast: true,
        ..Default::default()
    };
    assert_eq!(cost_micros(&id("opus-5-5"), &u), 40_030_000);
}

#[test]
fn unpriced_model_costs_nothing() {
    let u = MessageUsage { input: 10, ..Default::default() };
    assert_eq!(cost_micros("<synthetic>", &u), 0);
}

#[test]
fn an_hour_counts_at_most_what_was_written() {
    let u = MessageUsage { cache_creation: 100, cache_creation_1h: 500, ..Default::default() };
    assert_eq!(cost_micros(&id("opus-5"), &u), 1000);
    let v = MessageUsage { input: 7, cache_read: 3, ..Default::default() };
    assert_eq!(cost_micros(&id("3-5-haiku-x"), &v), (7.0_f64 * 0.80 + 3.0 * 0.08).round() as u64);
}

#[test]
fn more_never_costs_less() {
    let mut before = 0;
    for n in 0..200u64 {
        let u = MessageUsage {
            input: 7 * n,
            output: n * n,
            cache_creation: 5 * n,
            cache_creation_1h: 2 * n,
            cache_read: 11 * n,
            web_search_requests: n / 50,
            fast: true,
            ..Default::default()
        };
        let cost = cost_micros(&id("opus-5-5"), &u);
        assert!(before <= cost, "{n}");
        before = cost;
    }
    assert!(before > 0);
}

#[test]
fn fast_answers_cost_the_same_without_a_multiplier() {
    let mut u = MessageUsage { input: 12_345, output: 678, ..Default::default() };
    let slow = cost_micros(&id("sonnet-5"), &u);
    let slow_opus = cost_micros(&id("opus-5-5"), &u);
    u.fast = true;
    assert_eq!(cost_micros(&id("sonnet-5"), &u), slow);
    assert_eq!(cost_micros(&id("opus-5-5"), &u), 2 * slow_opus);
}
