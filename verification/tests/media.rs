//! Sound, picture, waveforms and the queue that decodes ahead.

use concat_edit::audio::gain::{volume_expr, GainKey};
use concat_edit::audio::graph::{mix_graph, mix_graph_from, validate_chain, AudioClip};
use concat_edit::audio::mixing::{
    clip_samples, input_seek, lead, sink_graph, source_args, total_samples, Added, Decoded,
    InputStep, MixInput, MixStep, Mixer, Pulled, Read, Sent,
};
use concat_edit::audio::muxing::{Filled, Mux, MuxStep, Packet, Side};
use concat_edit::audio::speed::{clamp_speed, speed_filters, tempo_stages};
use concat_edit::decode::color::{
    Codec, ColorRange, ColorSignal, Pixel, Primaries, Range, Space, Transfer,
};
use concat_edit::decode::options::{
    buffer_args, video_filter, DecodeOptions, FrameRate, HwDevice, HwPolicy,
};
use concat_edit::decode::pacing::{pack_rows, Pace};
use concat_edit::decode::reading::{Decoder, Fed, OpenError, Opened, Received, Source, Step};
use concat_edit::digits::fixed_text;
use concat_edit::number::Number;
use concat_edit::peaks::{Folder, Peaks, Pyramid};
use concat_edit::perf::{failures, Budget, Measure};
use concat_edit::prefetch::{
    default_workers, Ahead, Cursor, Direction, Priority, Queue, Turn, AHEAD,
};
use concat_edit::single::Single;
use concat_edit::timing::{
    av_ticks, displayed, rotation, rotation_filters, seconds, start_of, Ratio, TimeBase,
};

fn n(value: f64) -> Number {
    Number::from_bits(value.to_bits())
}

fn f(value: Number) -> f64 {
    f64::from_bits(value.to_bits())
}

fn s(value: f32) -> Single {
    Single { bits: value.to_bits() }
}

fn g(value: Single) -> f32 {
    f32::from_bits(value.bits)
}

fn singles(values: &[f32]) -> Vec<Single> {
    values.iter().map(|value| s(*value)).collect()
}

fn floats(values: &[Single]) -> Vec<f32> {
    values.iter().map(|value| g(*value)).collect()
}

fn ratio(num: i64, den: i64) -> Ratio {
    Ratio::checked_new(i128::from(num), i128::from(den)).expect("a ratio")
}

// Sound.

fn clip(path: &str) -> AudioClip {
    AudioClip {
        path: path.to_owned(),
        stream: None,
        start: n(0.0),
        duration: n(2.0),
        source_start: n(0.0),
        speed: n(1.0),
        preserve_pitch: true,
        volume: n(1.0),
        volume_curve: Vec::new(),
        fade_in: n(0.0),
        fade_out: n(0.0),
        filter_chain: String::new(),
    }
}

#[test]
fn tempo_stages_multiply_back_to_the_requested_rate() {
    for speed in [0.25, 0.5, 0.9, 1.0, 1.5, 2.0, 3.0, 4.0, 8.0] {
        let product: f64 = tempo_stages(n(speed)).iter().map(|factor| f(*factor)).product();
        assert!(
            (product - speed).abs() < 1e-9,
            "stages for {speed} multiplied to {product}",
        );
    }
}

#[test]
fn every_stage_is_within_the_filter_range() {
    for speed in [0.0625, 0.25, 0.5, 1.0, 4.0, 8.0, 16.0] {
        for factor in tempo_stages(n(speed)) {
            let factor = f(factor);
            assert!(
                (0.5..=2.0).contains(&factor),
                "{factor} is outside atempo's range, from speed {speed}",
            );
        }
    }
}

#[test]
fn out_of_range_speeds_clamp_rather_than_explode() {
    assert_eq!(f(clamp_speed(n(0.0))), 0.0625);
    assert_eq!(f(clamp_speed(n(100.0))), 16.0);
    assert_eq!(f(clamp_speed(n(1.0))), 1.0);
}

#[test]
fn normal_speed_needs_no_filters() {
    assert!(speed_filters(n(1.0), true).is_empty());
    assert!(speed_filters(n(1.0), false).is_empty());
}

#[test]
fn the_tape_effect_lands_on_the_mix_rate_before_shifting() {
    let filters = speed_filters(n(2.0), false);
    assert_eq!(
        filters[0], "aresample=48000",
        "the shift must start from a known rate"
    );
    assert!(filters[1].starts_with("asetrate=48000*"));
    assert_eq!(filters[2], "aresample=48000");
}

#[test]
fn a_single_clip_avoids_amix_normalisation() {
    let graph = mix_graph(&vec![clip("a.mp4")]).expect("valid");
    assert!(graph.contains("anull[mixed]"), "graph was: {graph}");
    assert!(!graph.contains("amix"), "graph was: {graph}");
}

#[test]
fn several_clips_mix_without_normalisation() {
    let graph = mix_graph(&vec![clip("a.mp4"), clip("b.mp4")]).expect("valid");
    assert!(
        graph.contains("amix=inputs=2:normalize=0"),
        "graph was: {graph}"
    );
    assert!(
        graph.contains("[0:a]") && graph.contains("[1:a]"),
        "graph was: {graph}"
    );
}

#[test]
fn the_final_stage_pads_and_leaves_the_end_to_the_reader() {
    let graph = mix_graph(&vec![clip("a.mp4")]).expect("valid");
    assert!(
        graph.ends_with("aresample=48000,apad[out]"),
        "graph was: {graph}"
    );
    assert!(!graph.contains("atrim=duration"), "graph was: {graph}");
}

#[test]
fn a_sped_up_clip_retimes_in_the_graph_and_is_cut_by_sample_count() {
    let mut fast = clip("a.mp4");
    fast.speed = n(2.0);
    let graph = mix_graph(&vec![fast]).expect("valid");
    // The out-point is a sample count, and an input that landed on its in-point
    // has nothing to cut.
    assert!(
        graph.contains("[0:a]anull,atempo=2.000000"),
        "graph was: {graph}"
    );
    assert!(!graph.contains("atrim=start"), "graph was: {graph}");
}

#[test]
fn an_input_that_landed_early_is_cut_to_its_in_point() {
    let graph = mix_graph_from(
        &vec![clip("a.mp4"), clip("b.mp4")],
        &vec![n(0.0213), n(0.0)],
    )
    .expect("valid");
    assert!(
        graph.contains("[0:a]atrim=start=0.021300,asetpts=PTS-STARTPTS,"),
        "graph was: {graph}"
    );
    assert!(graph.contains("[1:a]anull,"), "graph was: {graph}");
}

#[test]
fn fades_and_volume_apply_after_the_filter_chain() {
    let mut shaped = clip("a.mp4");
    shaped.filter_chain = "highpass=f=80".to_owned();
    shaped.volume = n(0.5);
    shaped.fade_out = n(0.25);
    let graph = mix_graph(&vec![shaped]).expect("valid");

    let chain_at = graph.find("highpass").expect("chain present");
    let volume_at = graph.find(",volume=").expect("volume present");
    let fade_at = graph.find(",afade=t=out").expect("fade present");
    assert!(
        chain_at < volume_at && volume_at < fade_at,
        "graph was: {graph}"
    );
}

#[test]
fn a_chain_that_escapes_its_slot_is_refused() {
    for bad in ["volume=2;amovie=x[a]", "anull[a1]", "a\nb"] {
        let mut hostile = clip("a.mp4");
        hostile.filter_chain = bad.to_owned();
        assert!(
            mix_graph(&vec![hostile]).is_err(),
            "{bad:?} should have been refused",
        );
    }
}

#[test]
fn ordinary_chains_pass_validation() {
    for good in [
        "",
        "highpass=f=80,equalizer=f=300:t=q:w=1.1:g=-1.4",
        "volume=0.5",
    ] {
        assert!(validate_chain(good).is_ok(), "{good:?} should be fine");
    }
}

#[test]
fn a_refused_chain_says_which_character_would_escape() {
    let refused = validate_chain("volume=2;amovie=x[a]").unwrap_err();
    assert_eq!(refused.chain, "volume=2;amovie=x[a]");
    assert_eq!(refused.found, ';');
    assert_eq!(
        refused.detail(),
        "contains ';', which would escape the clip's filter slot"
    );
    assert_eq!(
        validate_chain("a\nb").unwrap_err().detail(),
        format!("contains {:?}, which would escape the clip's filter slot", '\n')
    );
    assert_eq!(
        validate_chain("a\rb").unwrap_err().detail(),
        format!("contains {:?}, which would escape the clip's filter slot", '\r')
    );
}

#[test]
fn the_first_bad_chain_of_a_mix_is_the_one_named() {
    let mut second = clip("b.mp4");
    second.filter_chain = "x]".to_owned();
    let mut third = clip("c.mp4");
    third.filter_chain = ";".to_owned();
    let refused = mix_graph(&vec![clip("a.mp4"), second, third]).unwrap_err();
    assert_eq!((refused.chain.as_str(), refused.found), ("x]", ']'));
}

#[test]
fn a_whole_graph_reads_as_it_should() {
    let mut first = clip("a.mp4");
    first.start = n(1.2345);
    first.speed = n(4.0);
    first.volume = n(0.5);
    first.fade_in = n(0.25);
    first.fade_out = n(0.75);
    first.filter_chain = "highpass=f=80".to_owned();
    let mut second = clip("b.mp4");
    second.speed = n(0.5);
    second.preserve_pitch = false;
    let graph = mix_graph_from(&vec![first, second], &vec![n(0.5)]).expect("valid");
    assert_eq!(
        graph,
        "[0:a]atrim=start=0.500000,asetpts=PTS-STARTPTS,atempo=2.000000,atempo=2.000000,\
         highpass=f=80,volume=0.5000,afade=t=in:st=0:d=0.2500,afade=t=out:st=1.2500:d=0.7500,\
         adelay=1235:all=1[a0];\
         [1:a]anull,aresample=48000,asetrate=48000*0.500000,aresample=48000,adelay=0:all=1[a1];\
         [a0][a1]amix=inputs=2:normalize=0[mixed];[mixed]aresample=48000,apad[out]"
    );
}

#[test]
fn a_gain_ride_is_written_as_nested_runs() {
    let keys = vec![
        GainKey { at: n(0.0), value: n(0.0) },
        GainKey { at: n(0.5), value: n(1.0) },
        GainKey { at: n(0.5), value: n(-2.0) },
    ];
    assert_eq!(
        volume_expr(&keys, n(4.0)).expect("a ride"),
        "if(lte((t/4.000000),0.000000),0.000000,\
         if(lte((t/4.000000),0.500000),(0.000000+(1.000000)*clip(((t/4.000000)-0.000000)/0.500000,0,1)),\
         if(lte((t/4.000000),0.500000),0.000000,0.000000)))"
    );
    assert_eq!(volume_expr(&keys, n(0.0)).expect("a constant"), "0.000000");
    assert!(volume_expr(&Vec::new(), n(4.0)).is_none());
    let mut ridden = clip("a.mp4");
    ridden.volume_curve = vec![GainKey { at: n(0.0), value: n(0.25) }];
    let graph = mix_graph(&vec![ridden]).expect("valid");
    assert!(
        graph.contains(",volume=volume='if(lte((t/2.000000),0.000000),0.250000,0.250000)':eval=frame,"),
        "graph was: {graph}"
    );
}

#[test]
fn fixed_decimals_agree_with_the_formatter() {
    let mut seed: u64 = 0x9e37_79b9_7f4a_7c15;
    let mut values = vec![
        0.0, -0.0, 1.0, -1.0, 0.5, 0.25, 0.125, 0.0000005, 0.0000015, 2.5, 1e-300, 123456.789,
        1e22, 1e300, -1e17, f64::MAX, f64::MIN_POSITIVE, f64::INFINITY, f64::NEG_INFINITY,
        9007199254740993.0, 0.1, 0.2, 0.3, 1.0 / 3.0, 999999.9999995, 0.99999949999,
    ];
    for _ in 0..3000 {
        seed = seed.wrapping_mul(6364136223846793005).wrapping_add(1442695040888963407);
        let value = f64::from_bits(seed ^ (seed >> 29));
        if !value.is_nan() {
            values.push(value);
        }
        values.push((seed >> 40) as f64 / 4096.0);
        values.push((seed >> 34) as f64 / 1_000_000.0);
    }
    for value in values {
        let six: String = fixed_text(n(value), 6).into_iter().collect();
        assert_eq!(six, format!("{value:.6}"));
        let four: String = fixed_text(n(value), 4).into_iter().collect();
        assert_eq!(four, format!("{value:.4}"));
    }
    let odd: String = fixed_text(n(f64::NAN), 6).into_iter().collect();
    assert_eq!(odd, format!("{:.6}", f64::NAN));
}

#[test]
fn integers_out_of_numbers_agree_with_the_machine() {
    let mut seed: u64 = 0x1234_5678_9abc_def1;
    let mut values = vec![
        0.0, -0.0, 0.5, -0.5, 1.5, 2.5, -2.5, 0.49999999999999994, 1e18, 9.3e18, -9.3e18, 1e300,
        f64::INFINITY, f64::NEG_INFINITY, f64::NAN, 4503599627370497.5,
    ];
    for _ in 0..3000 {
        seed = seed.wrapping_mul(6364136223846793005).wrapping_add(1442695040888963407);
        values.push(f64::from_bits(seed));
        values.push((seed as i64) as f64 / 1024.0);
        values.push((seed >> 44) as f64 / 16.0);
    }
    for value in values {
        assert_eq!(n(value).to_whole(), value as i64, "{value}");
        assert_eq!(n(value).to_rounded(), value.round() as i64, "{value}");
        assert_eq!(n(value).to_ceiling(), value.ceil() as i64, "{value}");
    }
}

#[test]
fn a_clip_feeds_its_length_and_its_lead() {
    let mut fast = clip("a.mp4");
    fast.duration = n(4.0);
    fast.speed = n(2.0);
    assert_eq!(clip_samples(&fast, n(0.5), 48_000), 408_000);
    assert_eq!(total_samples(n(16.0)), 768_000);
    assert_eq!(total_samples(n(-3.0)), 0);
    assert_eq!(total_samples(n(f64::NAN)), 0);
    let base = TimeBase { numerator: 1, denominator: 48_000 };
    let zero = Ratio::from_int(0);
    assert_eq!(f(lead(n(2.0), Some(95_000), base, zero)), 2.0 - 95_000.0 / 48_000.0);
    assert_eq!(f(lead(n(2.0), Some(97_000), base, zero)), 0.0, "past the in-point");
    assert_eq!(f(lead(n(2.0), None, base, zero)), 0.0, "nobody says");
    assert_eq!(input_seek(n(2.5), ratio(7, 5)), Some(3_900_000));
    assert_eq!(input_seek(n(0.0), ratio(7, 5)), None);
    assert_eq!(
        source_args(44_100, "fltp", "stereo"),
        "time_base=1/44100:sample_rate=44100:sample_fmt=fltp:channel_layout=stereo"
    );
    assert_eq!(
        sink_graph("g"),
        "g;[out]aformat=sample_fmts=fltp:sample_rates=48000:channel_layouts=stereo[sink]"
    );
}

/// A trimmed clip's mix ends when the timeline does, however much the graph
/// goes on padding: two inputs, the second short, to a thousand and five
/// hundred samples.
#[test]
fn a_mix_takes_exactly_its_samples() {
    let inputs = vec![MixInput::opened(1024, 2048), MixInput::opened(1024, 1000)];
    let mut mix = Mixer::new(inputs, 1500);
    let mut step = MixStep::Pull;
    let mut encoded = Vec::new();
    let mut added = Vec::new();
    let mut closed = Vec::new();
    let mut pulls = 0;
    loop {
        step = match step {
            MixStep::Pull => {
                pulls += 1;
                if pulls % 2 == 1 {
                    mix.pulled(Pulled::Again)
                } else {
                    mix.pulled(Pulled::Frame(1024))
                }
            }
            MixStep::Encode { samples, pts } => {
                encoded.push((samples, pts));
                mix.encoded()
            }
            MixStep::Read(input) => mix.read(input, Read::Frame(1024)),
            MixStep::Add { input, pts } => {
                added.push((input, pts));
                mix.added(input, Added::Taken)
            }
            MixStep::Close(input) => {
                closed.push(input);
                mix.closed(input)
            }
            MixStep::Finish => break,
            MixStep::Fail => panic!("nothing failed"),
        };
    }
    assert_eq!(encoded, vec![(1024, 0), (476, 1024)], "shortened to land on the end");
    assert_eq!(added, vec![(0, 1024)], "stamped from its own count");
    assert_eq!(closed, vec![1, 0], "each stops at its own out-point");
    assert_eq!(mix.written, 1500);
}

#[test]
fn a_closed_slot_ends_the_input_and_a_dry_graph_the_mix() {
    let mut mix = Mixer::new(vec![MixInput::opened(10, 1000)], 100);
    assert_eq!(mix.pulled(Pulled::Again), MixStep::Read(0));
    assert_eq!(mix.read(0, Read::Frame(10)), MixStep::Add { input: 0, pts: 10 });
    assert_eq!(mix.added(0, Added::Closed), MixStep::Close(0));
    assert_eq!(mix.closed(0), MixStep::Pull);
    assert_eq!(mix.pulled(Pulled::Again), MixStep::Pull, "nobody is left to read");
    assert_eq!(mix.pulled(Pulled::End), MixStep::Finish);
    assert_eq!(mix.pulled(Pulled::Failed), MixStep::Fail);
    assert_eq!(mix.read(0, Read::Failed), MixStep::Fail);
    assert_eq!(mix.read(0, Read::End), MixStep::Close(0));
    assert_eq!(mix.added(0, Added::Failed), MixStep::Fail);
}

#[test]
fn an_input_reads_until_its_file_is_over() {
    let mut input = MixInput::opened(0, 10);
    assert!(matches!(input.begin(), InputStep::Receive));
    assert!(matches!(input.decoded(Decoded::Again), InputStep::Feed));
    assert!(matches!(input.fed(Sent::Foreign), InputStep::Feed));
    assert!(matches!(input.fed(Sent::Taken), InputStep::Receive));
    assert!(matches!(input.fed(Sent::Refused), InputStep::Fail));
    assert!(matches!(input.fed(Sent::ReadFailed), InputStep::Fail));
    assert!(matches!(input.fed(Sent::EndOfFile), InputStep::Flush));
    assert!(matches!(input.decoded(Decoded::Frame), InputStep::Give));
    assert!(matches!(input.decoded(Decoded::Failed), InputStep::Fail));
    assert!(matches!(input.decoded(Decoded::End), InputStep::End));
    assert!(matches!(input.begin(), InputStep::End));
}

/// Joins `pictures` packets of a sixtieth each with `sounds` packets of 1024
/// samples each, and counts what was written of either.
fn join(pictures: i64, sounds: i64) -> (i64, i64) {
    let mut mux = Mux::new(
        TimeBase { numerator: 1, denominator: 60 },
        TimeBase { numerator: 1, denominator: 48_000 },
    );
    let (mut read, mut wrote) = ((0, 0), (0, 0));
    let mut step = mux.step();
    loop {
        step = match step {
            MuxStep::Fill(Side::Picture) => {
                let event = if read.0 < pictures {
                    Filled::Packet(Packet { pts: Some(read.0), dts: Some(read.0), duration: 1 })
                } else {
                    Filled::End
                };
                read.0 += 1;
                mux.filled(Side::Picture, event)
            }
            MuxStep::Fill(Side::Sound) => {
                let event = if read.1 < sounds {
                    Filled::Packet(Packet { pts: Some(read.1 * 1024), dts: None, duration: 1024 })
                } else {
                    Filled::End
                };
                read.1 += 1;
                mux.filled(Side::Sound, event)
            }
            MuxStep::Write(side) => {
                match side {
                    Side::Picture => wrote.0 += 1,
                    Side::Sound => wrote.1 += 1,
                }
                mux.written(side)
            }
            MuxStep::Finish => return wrote,
            MuxStep::Fail => panic!("nothing failed"),
        };
    }
}

/// The picture's packets come denser than the sound's, and the whole of it is
/// in the file all the same: four seconds of each.
#[test]
fn a_denser_picture_is_joined_whole() {
    let (pictures, sounds) = join(240, 190);
    assert_eq!(pictures, 240, "every picture packet is in the file");
    assert!(sounds > 150, "the sound is there too, not {sounds} packets");
}

#[test]
fn a_join_ends_with_the_shorter() {
    // One second of sound under four of picture: 47 packets end at 1.0027.
    let (pictures, sounds) = join(240, 47);
    assert_eq!(sounds, 47);
    assert_eq!(pictures, 61, "the last one shown before the sound ends");
    // One second of picture under four of sound.
    let (pictures, sounds) = join(60, 190);
    assert_eq!(pictures, 60);
    assert_eq!(sounds, 47, "46 end before the second, one straddles it");
}

#[test]
fn a_packet_with_no_time_goes_out_at_once_and_a_failed_read_is_reported() {
    let base = TimeBase { numerator: 1, denominator: 10 };
    let mut mux = Mux::new(base, base);
    assert_eq!(mux.step(), MuxStep::Fill(Side::Picture));
    let early = Packet { pts: Some(0), dts: Some(0), duration: 1 };
    assert_eq!(
        mux.filled(Side::Picture, Filled::Foreign),
        MuxStep::Fill(Side::Picture)
    );
    assert_eq!(
        mux.filled(Side::Picture, Filled::Packet(early)),
        MuxStep::Fill(Side::Sound)
    );
    let untimed = Packet { pts: None, dts: None, duration: 1 };
    assert_eq!(
        mux.filled(Side::Sound, Filled::Packet(untimed)),
        MuxStep::Write(Side::Sound)
    );
    assert_eq!(mux.filled(Side::Sound, Filled::Failed), MuxStep::Fail);
}

// Time and turn.

#[test]
fn a_quarter_turn_swaps_the_dimensions_and_a_half_turn_does_not() {
    assert_eq!(displayed(1920, 1080, 90), (1080, 1920));
    assert_eq!(displayed(1920, 1080, 270), (1080, 1920));
    assert_eq!(displayed(1920, 1080, 180), (1920, 1080));
    assert_eq!(displayed(1920, 1080, 0), (1920, 1080));
}

#[test]
fn rotation_filters_match_autorotate() {
    assert_eq!(rotation_filters(0), None);
    assert_eq!(rotation_filters(90), Some("transpose=clock"));
    assert_eq!(rotation_filters(180), Some("hflip,vflip"));
    assert_eq!(rotation_filters(270), Some("transpose=cclock"));
}

#[test]
fn timestamps_convert_exactly() {
    let tb = TimeBase { numerator: 1, denominator: 30_000 };
    assert_eq!(seconds(1001, tb), Some(ratio(1001, 30_000)));
    assert_eq!(seconds(5, TimeBase { numerator: 1, denominator: 0 }), None);
    assert_eq!(av_ticks(ratio(3, 2)), 1_500_000);
}

#[test]
fn ratios_stay_in_lowest_terms_and_know_when_they_cannot_fit() {
    let half = ratio(-3, -6);
    assert_eq!((half.numerator_of(), half.denominator_of()), (1, 2));
    let third = ratio(2, -6);
    assert_eq!((third.numerator_of(), third.denominator_of()), (-1, 3));
    assert_eq!(half.plus(&third), Some(ratio(1, 6)));
    assert_eq!(half.minus(&third), Some(ratio(5, 6)));
    assert_eq!(half.times(7), Some(ratio(7, 2)));
    assert!(third.before(&half) && !half.before(&third) && !half.before(&half));
    assert_eq!(Ratio::checked_new(1, 0), None);
    assert_eq!(Ratio::checked_new(i128::from(i64::MAX) + 1, 1), None);
    assert_eq!(
        Ratio::checked_new(i128::from(i64::MIN), 1).map(|r| r.numerator_of()),
        Some(i64::MIN)
    );
    assert_eq!(ratio(i64::MAX, 1).plus(&ratio(1, 1)), None);
    assert_eq!(av_ticks(ratio(-1, 3)), -333_334, "rounded towards the past");
    assert_eq!(av_ticks(ratio(i64::MAX, 1)), i64::MAX);
}

#[test]
fn a_streams_clock_and_turn_are_read() {
    let tb = TimeBase { numerator: 1, denominator: 90_000 };
    assert_eq!(start_of(Some(126_000), tb), ratio(7, 5));
    assert_eq!(start_of(Some(-5), tb), ratio(0, 1));
    assert_eq!(start_of(None, tb), ratio(0, 1));
    assert_eq!(
        start_of(Some(5), TimeBase { numerator: 1, denominator: 0 }),
        ratio(0, 1)
    );
    assert_eq!(rotation(Some(n(-90.0)), Some(n(180.0))), 270);
    assert_eq!(rotation(None, Some(n(179.6))), 180);
    assert_eq!(rotation(None, Some(n(-0.4))), 0);
    assert_eq!(rotation(None, None), 0);
    assert_eq!(rotation(Some(n(720.0)), None), 0);
}

// Picture.

#[test]
fn options_build_up() {
    let options = DecodeOptions::default()
        .starting_at(Ratio::from_int(2))
        .limited_to(10)
        .scaled_to(640, 360);
    assert_eq!(options.start, Some(Ratio::from_int(2)));
    assert_eq!(options.max_frames, Some(10));
    assert_eq!(options.size, Some((640, 360)));
}

#[test]
fn every_option_lands_in_its_own_field() {
    let rate = FrameRate::new(Ratio::from_int(60)).expect("a rate");
    let options = DecodeOptions::default()
        .at_rate(rate)
        .repeating()
        .prefiltered("crop=1:1".to_owned())
        .filtered("hue=s=0".to_owned())
        .nearest_keyframes()
        .threaded(2)
        .accelerated(HwDevice { place: 3 })
        .in_range(Some(ColorRange::Full));
    assert_eq!(options.frame_rate, Some(rate));
    assert!(options.looping && options.keyframes_only);
    assert_eq!(options.pre_chain.as_deref(), Some("crop=1:1"));
    assert_eq!(options.filter_chain.as_deref(), Some("hue=s=0"));
    assert_eq!(options.threads, 2);
    assert_eq!(options.hardware, HwPolicy::Device(HwDevice { place: 3 }));
    assert_eq!(options.color_range, Some(ColorRange::Full));
    assert_eq!(options.clone().in_software().hardware, HwPolicy::Software);
    assert!(FrameRate::new(Ratio::from_int(0)).is_none());
    assert_eq!(rate.frame_duration(), Some(ratio(1, 60)));
}

#[test]
fn a_filter_chain_is_fenced_by_the_guard_scale() {
    let options = DecodeOptions::default()
        .scaled_to(640, 360)
        .filtered("hue=s=0".to_owned());
    assert_eq!(
        video_filter(0, &options, 640, 360, None),
        "scale=640:360:flags=bilinear,hue=s=0,scale=640:360:flags=bilinear,format=rgba",
    );
}

#[test]
fn rotation_comes_first() {
    let options = DecodeOptions::default();
    assert!(video_filter(90, &options, 1080, 1920, None).starts_with("transpose=clock,"));
    assert!(video_filter(0, &options, 1920, 1080, None).starts_with("scale="));
}

#[test]
fn a_wide_picture_is_brought_into_bt709_and_a_709_one_is_left_alone() {
    let options = DecodeOptions::default();
    let sdr = ColorSignal {
        primaries: Primaries::Bt709,
        transfer: Transfer::Bt709,
        matrix: Space::Bt709,
        range: Range::Mpeg,
        implied: false,
    };
    assert!(!sdr.is_wide());
    assert_eq!(
        video_filter(0, &options, 640, 360, Some(sdr)),
        "scale=640:360:flags=bilinear,format=rgba"
    );
    let hdr = ColorSignal {
        primaries: Primaries::Bt2020,
        transfer: Transfer::Smpte2084,
        matrix: Space::Bt2020Ncl,
        range: Range::Mpeg,
        implied: false,
    };
    assert!(hdr.is_wide() && hdr.is_hdr());
    let spec = video_filter(0, &options, 640, 360, Some(hdr));
    assert!(spec.starts_with("scale=640:360:flags=bilinear:in_primaries=bt2020:in_transfer=smpte2084:in_color_matrix=bt2020nc:in_range=tv:out_primaries=bt709"), "{spec}");
    assert!(spec.contains("intent=perceptual,format=rgba"), "{spec}");
    // wide gamut with an SDR curve converts too, and the untagged half of it is
    // left to the frames
    let wide = ColorSignal {
        primaries: Primaries::Bt2020,
        transfer: Transfer::Unspecified,
        matrix: Space::Unspecified,
        range: Range::Unspecified,
        implied: false,
    };
    assert!(wide.is_wide() && !wide.is_hdr());
    assert!(
        video_filter(0, &options, 64, 64, Some(wide))
            .contains(":in_transfer=auto:in_color_matrix=auto:in_range=auto:")
    );
}

/// With no tag and no override, the codec's convention names the range: JPEG,
/// the picture formats and anything RGB are full, and a YCbCr video codec is
/// limited - even one a hardware decoder has handed back as plain NV12.
#[test]
fn an_untagged_stream_takes_its_codecs_range() {
    assert_eq!(ColorRange::implied(Codec::Mjpeg, Pixel::Yuvj420p), ColorRange::Full);
    assert_eq!(ColorRange::implied(Codec::Mjpeg, Pixel::Nv12), ColorRange::Full);
    assert_eq!(ColorRange::implied(Codec::H264, Pixel::Yuvj420p), ColorRange::Full);
    assert_eq!(ColorRange::implied(Codec::Png, Pixel::Rgba), ColorRange::Full);
    assert_eq!(ColorRange::implied(Codec::RawVideo, Pixel::Bgra), ColorRange::Full);
    assert_eq!(ColorRange::implied(Codec::H264, Pixel::Yuv420p), ColorRange::Limited);
    assert_eq!(ColorRange::implied(Codec::Hevc, Pixel::Yuv420p10le), ColorRange::Limited);
    assert_eq!(ColorRange::implied(Codec::RawVideo, Pixel::Nv12), ColorRange::Limited);
    assert_eq!(ColorRange::implied(Codec::Unknown, Pixel::Unknown), ColorRange::Limited);
}

/// Anything RGB is full range, told apart by name or not.
#[test]
fn any_rgb_format_is_full_range() {
    assert_eq!(ColorRange::implied(Codec::H264, Pixel::Gbrp), ColorRange::Full);
    assert_eq!(ColorRange::implied(Codec::H264, Pixel::OtherRgb(118)), ColorRange::Full);
    assert_eq!(ColorRange::implied(Codec::H264, Pixel::Other(4)), ColorRange::Limited);
    assert_eq!(ColorRange::implied(Codec::Png, Pixel::Other(8)), ColorRange::Full);
}

/// An implied full range is named to the fit, because the frames carry no tag
/// to read; an implied limited one is left unsaid, since unsaid already means
/// limited; a tagged one is the frames' to say; and an override still beats the
/// reading.
#[test]
fn an_implied_full_range_reaches_the_filter() {
    let options = DecodeOptions::default().scaled_to(640, 360);
    let signal = |range, implied| ColorSignal {
        primaries: Primaries::Bt709,
        transfer: Transfer::Bt709,
        matrix: Space::Bt709,
        range,
        implied,
    };
    assert_eq!(
        video_filter(0, &options, 640, 360, Some(signal(Range::Jpeg, true))),
        "scale=640:360:flags=bilinear:in_range=pc,format=rgba"
    );
    assert_eq!(
        video_filter(0, &options, 640, 360, Some(signal(Range::Mpeg, true))),
        "scale=640:360:flags=bilinear,format=rgba"
    );
    assert_eq!(
        video_filter(0, &options, 640, 360, Some(signal(Range::Jpeg, false))),
        "scale=640:360:flags=bilinear,format=rgba"
    );
    let limited = options.clone().in_range(Some(ColorRange::Limited));
    assert_eq!(
        video_filter(0, &limited, 640, 360, Some(signal(Range::Jpeg, true))),
        "scale=640:360:flags=bilinear:in_range=tv,format=rgba"
    );
}

/// A range the caller names is the range the picture is read as: on an SDR file
/// it is the one term added to the fit, on a wide one it replaces the file's tag
/// among the conversion's terms, and with no override nothing is said and the
/// frames' own tag decides.
#[test]
fn a_named_range_overrides_the_files_tag() {
    let sdr = ColorSignal {
        primaries: Primaries::Bt709,
        transfer: Transfer::Bt709,
        matrix: Space::Bt709,
        range: Range::Mpeg,
        implied: false,
    };
    let full = DecodeOptions::default()
        .scaled_to(640, 360)
        .in_range(Some(ColorRange::Full));
    assert_eq!(
        video_filter(0, &full, 640, 360, Some(sdr)),
        "scale=640:360:flags=bilinear:in_range=pc,format=rgba"
    );
    let limited = DecodeOptions::default()
        .scaled_to(640, 360)
        .in_range(Some(ColorRange::Limited));
    assert_eq!(
        video_filter(0, &limited, 640, 360, Some(sdr)),
        "scale=640:360:flags=bilinear:in_range=tv,format=rgba"
    );
    let untold = DecodeOptions::default().scaled_to(640, 360);
    assert_eq!(
        video_filter(0, &untold, 640, 360, Some(sdr)),
        "scale=640:360:flags=bilinear,format=rgba",
        "with no override the filter says nothing about range"
    );
    // On a wide picture the override has already replaced the signal's range by
    // the time the filter is built; the filter reads the signal it is given.
    let hdr_full = ColorSignal {
        primaries: Primaries::Bt2020,
        transfer: Transfer::Smpte2084,
        matrix: Space::Bt2020Ncl,
        range: ColorRange::Full.as_ffmpeg(),
        implied: false,
    };
    assert!(
        video_filter(0, &full, 640, 360, Some(hdr_full)).contains(":in_range=pc:"),
        "a wide picture carries the range among its conversion terms"
    );
    assert_eq!(ColorRange::parse("PC"), Some(ColorRange::Full));
    assert_eq!(ColorRange::parse("video"), Some(ColorRange::Limited));
    assert_eq!(ColorRange::parse("wide"), None);
    assert_eq!(ColorRange::from_ffmpeg(Range::Jpeg), Some(ColorRange::Full));
    assert_eq!(ColorRange::from_ffmpeg(Range::Unspecified), None);
    for range in ColorRange::all() {
        assert_eq!(ColorRange::parse(range.name()), Some(range));
        assert_eq!(ColorRange::from_ffmpeg(range.as_ffmpeg()), Some(range));
    }
}

#[test]
fn every_spelling_of_a_range_is_read_and_labelled() {
    for word in [" limited ", "TV", "Video", "mpeg"] {
        assert_eq!(ColorRange::parse(word), Some(ColorRange::Limited), "{word}");
    }
    for word in ["full", "\tPC\n", "JPEG"] {
        assert_eq!(ColorRange::parse(word), Some(ColorRange::Full), "{word}");
    }
    assert_eq!(ColorRange::parse(""), None);
    assert_eq!(ColorRange::Limited.label(), "Limited");
    assert_eq!(ColorRange::Full.label(), "Full");
    assert_eq!(ColorRange::Full.scale_name(), "pc");
    assert_eq!(ColorRange::default(), ColorRange::Limited);
}

#[test]
fn a_crop_comes_before_the_fit_and_the_source_is_told_its_frames() {
    let options = DecodeOptions::default().prefiltered("crop=100:50".to_owned());
    assert_eq!(
        video_filter(270, &options, 10, 20, None),
        "transpose=cclock,crop=100:50,scale=10:20:flags=bilinear,format=rgba"
    );
    assert_eq!(
        buffer_args(64, 48, -1, TimeBase { numerator: 1, denominator: 90_000 }),
        "video_size=64x48:pix_fmt=-1:time_base=1/90000:pixel_aspect=1/1"
    );
}

#[test]
fn an_empty_chain_is_no_chain() {
    assert!(DecodeOptions::default().filtered(String::new()).filter_chain.is_none());
}

fn stream() -> Opened {
    Opened {
        time_base: TimeBase { numerator: 1, denominator: 30 },
        start: Some(42),
        rotation: 0,
        coded: (64, 48),
        primaries: Primaries::Unspecified,
        transfer: Transfer::Unspecified,
        matrix: Space::Unspecified,
        range: Range::Unspecified,
        codec: Codec::Mjpeg,
        pixel: Pixel::Yuv420p,
        hardware: None,
    }
}

fn frame(ticks: i64) -> Received {
    Received::Frame { ticks: Some(ticks), format: Pixel::Yuv420p }
}

fn given(step: Step) -> Option<Ratio> {
    match step {
        Step::Give { pts } => pts,
        other => panic!("no frame came out: {other:?}"),
    }
}

/// A stream that starts late is read from its own first frame, and a seek lands
/// where the caller meant.
#[test]
fn a_late_stream_reads_from_its_own_first_frame() {
    let mut reader = Decoder::open(stream(), DecodeOptions::default()).expect("opens");
    assert_eq!((reader.width, reader.height), (64, 48));
    assert_eq!(given(reader.received(frame(42))), Some(ratio(0, 1)));
    assert_eq!(given(reader.received(frame(43))), Some(ratio(1, 30)));
    assert_eq!(reader.seek_target(ratio(1, 2)), Some(1_900_000));
    reader.jump(ratio(1, 2));
    assert!(matches!(reader.received(frame(42)), Step::Skip));
    assert!(matches!(reader.received(frame(56)), Step::Skip));
    assert_eq!(given(reader.received(frame(57))), Some(ratio(1, 2)));
    assert!(reader.color().implied);
    assert_eq!(reader.color().range, Range::Jpeg);
}

#[test]
fn a_thumbnail_takes_the_keyframe_it_lands_on() {
    let options = DecodeOptions::default().nearest_keyframes().starting_at(ratio(1, 2));
    let mut reader = Decoder::open(stream(), options).expect("opens");
    assert_eq!(reader.first_seek(), Some(ratio(1, 2)));
    reader.jump(ratio(1, 2));
    assert_eq!(given(reader.received(frame(42))), Some(ratio(0, 1)));
}

#[test]
fn a_picture_with_no_size_cannot_be_opened() {
    let mut empty = stream();
    empty.coded = (64, 0);
    assert!(matches!(
        Decoder::open(empty, DecodeOptions::default()),
        Err(OpenError::NoSize)
    ));
    let sized = Decoder::open(empty, DecodeOptions::default().scaled_to(8, 6)).expect("opens");
    assert_eq!((sized.width, sized.height), (8, 6));
    let mut turned = stream();
    turned.rotation = 90;
    let turned = Decoder::open(turned, DecodeOptions::default()).expect("opens");
    assert_eq!((turned.width, turned.height), (48, 64));
}

#[test]
fn a_device_that_fails_hands_over_after_the_last_frame() {
    let device = HwDevice { place: 1 };
    let mut on_device = stream();
    on_device.hardware = Some((device, Pixel::Nv12));
    let mut reader = Decoder::open(on_device, DecodeOptions::default()).expect("opens");
    assert_eq!(reader.hardware(), Some(device));
    let arrived = Received::Frame { ticks: Some(45), format: Pixel::Nv12 };
    let Step::Download { pts } = reader.received(arrived) else {
        panic!("a device frame is copied back first");
    };
    assert_eq!(given(reader.downloaded(pts, true)), Some(ratio(1, 10)));
    let Step::Resume { from, after } = reader.received(Received::Failed) else {
        panic!("software takes over");
    };
    assert_eq!((from, after), (Some(ratio(1, 10)), true));
    assert_eq!(reader.hardware(), None);
    assert_eq!(reader.resume_target(from), Some(1_500_000));
    reader.resume_in_software(from, after);
    assert!(matches!(reader.received(frame(44)), Step::Skip));
    assert!(matches!(reader.received(frame(45)), Step::Skip), "it was already given");
    assert_eq!(given(reader.received(frame(46))), Some(ratio(2, 15)));
    assert!(matches!(reader.received(Received::Failed), Step::Fail));
}

#[test]
fn a_frame_that_cannot_be_copied_back_is_decoded_again() {
    let mut on_device = stream();
    on_device.hardware = Some((HwDevice { place: 1 }, Pixel::Nv12));
    let mut reader = Decoder::open(on_device, DecodeOptions::default()).expect("opens");
    let Step::Resume { from, after } = reader.downloaded(Some(ratio(1, 10)), false) else {
        panic!("software takes over");
    };
    assert_eq!((from, after), (Some(ratio(1, 10)), false));
    reader.resume_in_software(from, after);
    assert!(matches!(reader.received(frame(44)), Step::Skip));
    assert_eq!(given(reader.received(frame(45))), Some(ratio(1, 10)));
    // A codec that declined the device shows it with its first frame.
    let mut declined = Decoder::open(on_device, DecodeOptions::default()).expect("opens");
    assert_eq!(given(declined.received(frame(42))), Some(ratio(0, 1)));
    assert_eq!(declined.hardware(), None);
}

#[test]
fn packets_are_fed_until_the_file_is_over() {
    let mut reader = Decoder::open(stream(), DecodeOptions::default()).expect("opens");
    assert!(matches!(reader.received(Received::Again), Step::Feed));
    assert!(matches!(reader.fed(Fed::Foreign), Step::Feed));
    assert!(matches!(reader.fed(Fed::Sent), Step::Receive));
    assert!(matches!(reader.fed(Fed::Full), Step::Receive));
    assert!(matches!(reader.fed(Fed::Refused), Step::Fail));
    assert!(matches!(reader.fed(Fed::ReadFailed), Step::Fail));
    assert!(matches!(reader.fed(Fed::EndOfFile), Step::Flush));
    assert!(matches!(reader.received(Received::End), Step::End));
}

/// Reads `source` frames of a thirtieth each through a pacer at `fps`, and says
/// which were shown at which instants.
fn paced(source: u64, fps: i64, looping: bool, limit: usize) -> Vec<(u64, Ratio)> {
    let rate = FrameRate::new(Ratio::from_int(fps)).expect("a rate");
    let mut options = DecodeOptions::default().at_rate(rate);
    options.looping = looping;
    let mut reader = Decoder::open(stream(), options).expect("opens");
    let mut next = 0;
    let mut shown = Vec::new();
    while shown.len() < limit {
        match reader.next_paced(rate) {
            Pace::Take => {
                let supplied = (next < source).then(|| Source {
                    frame: next,
                    pts: Some(ratio(next as i64, 30)),
                });
                next += 1;
                reader.supplied(supplied);
            }
            Pace::Show(picture) => {
                shown.push((picture.frame, reader.position().expect("an instant")));
            }
            Pace::End => break,
            Pace::Unknown => panic!("every instant here is known"),
        }
    }
    shown
}

#[test]
fn a_pacer_repeats_and_drops_to_its_rate() {
    let doubled = paced(3, 60, false, 100);
    assert_eq!(
        doubled.iter().map(|(frame, _)| *frame).collect::<Vec<_>>(),
        vec![0, 0, 1, 1, 2]
    );
    assert_eq!(doubled[3].1, ratio(1, 20));
    let halved = paced(6, 15, false, 100);
    assert_eq!(
        halved.iter().map(|(frame, _)| *frame).collect::<Vec<_>>(),
        vec![0, 2, 4, 5]
    );
    let still = paced(1, 30, true, 40);
    assert_eq!(still.len(), 40, "a still goes on for as long as it is read");
    assert!(still.iter().all(|(frame, _)| *frame == 0));
}

#[test]
fn without_pacing_every_frame_comes_in_order_and_a_budget_ends_it() {
    let mut reader =
        Decoder::open(stream(), DecodeOptions::default().limited_to(2).repeating()).expect("opens");
    let first = Source { frame: 7, pts: Some(ratio(1, 30)) };
    assert!(!reader.spent());
    assert!(matches!(reader.next_unpaced(Some(first)), Pace::Show(Source { frame: 7, .. })));
    assert_eq!(reader.position(), Some(ratio(1, 30)));
    reader.count_frame();
    assert!(matches!(reader.next_unpaced(None), Pace::Show(Source { frame: 7, .. })));
    reader.count_frame();
    assert_eq!(reader.produced(), 2);
    assert!(reader.spent());
    let mut plain = Decoder::open(stream(), DecodeOptions::default()).expect("opens");
    assert!(matches!(plain.next_unpaced(None), Pace::End));
}

#[test]
fn the_graph_is_built_once_for_each_kind_of_frame() {
    let mut reader = Decoder::open(stream(), DecodeOptions::default()).expect("opens");
    let (args, spec) = reader.build_graph(23, 64, 48);
    assert!(args.starts_with("video_size=64x48:pix_fmt=23:time_base="));
    let size = format!("scale={}:{}", reader.width(), reader.height());
    assert!(spec.contains(&size), "{spec}");
    assert!(reader.needs_graph(Pixel::Nv12, 64, 48));
    reader.built_graph(Pixel::Nv12, 64, 48);
    assert!(!reader.needs_graph(Pixel::Nv12, 64, 48));
    assert!(reader.needs_graph(Pixel::Nv12, 64, 50));
    assert!(reader.needs_graph(Pixel::Yuv420p, 64, 48));
}

#[test]
fn padding_is_left_behind_when_rows_are_packed() {
    let data = vec![1, 2, 9, 9, 3, 4, 9, 9, 5, 6, 9, 9];
    assert_eq!(pack_rows(&data, 2, 3, 4), vec![1, 2, 3, 4, 5, 6]);
    assert!(pack_rows(&data, 2, 0, 4).is_empty());
}

// Waveforms.

fn fold(samples: &[i16], buckets_per_second: u32) -> Peaks {
    Folder::new(buckets_per_second).fold_all(&samples.to_vec()).finish()
}

#[test]
fn buckets_carry_the_extremes_and_the_tail_partial_counts() {
    // 240 samples per bucket at 200 buckets/second: one full bucket holding the
    // extremes, then a 10-sample partial.
    let mut samples = vec![0i16; 240];
    samples[7] = i16::MIN;
    samples[100] = 16384;
    samples.extend(std::iter::repeat_n(-8192i16, 10));

    let peaks = fold(&samples, 200);
    assert_eq!(g(peaks.buckets_per_second), 200.0);
    assert_eq!(peaks.min.len(), 2);
    assert_eq!(g(peaks.min[0]), -1.0);
    assert_eq!(g(peaks.max[0]), 0.5);
    assert_eq!(g(peaks.min[1]), -0.25);
    // Seeded at zero: an all-negative bucket still reports max 0.
    assert_eq!(g(peaks.max[1]), 0.0);
}

#[test]
fn silence_is_flat_zeroes() {
    let peaks = fold(&[0i16; 480], 200);
    assert_eq!(floats(&peaks.min), vec![0.0, 0.0]);
    assert_eq!(floats(&peaks.max), vec![0.0, 0.0]);
}

#[test]
fn folding_in_pieces_is_folding_whole() {
    let samples: Vec<i16> = (0..5000i32).map(|i| ((i * 7919) % 65536 - 32768) as i16).collect();
    let whole = fold(&samples, 200);
    let mut folder = Folder::new(200);
    for piece in samples.chunks(77) {
        folder = folder.fold_all(&piece.to_vec());
    }
    let pieces = folder.finish();
    assert_eq!(floats(&whole.min), floats(&pieces.min));
    assert_eq!(floats(&whole.max), floats(&pieces.max));
    for (bucket, chunk) in samples.chunks(240).enumerate() {
        let low = chunk.iter().fold(0.0f32, |low, s| low.min(f32::from(*s) / 32768.0));
        let high = chunk.iter().fold(0.0f32, |high, s| high.max(f32::from(*s) / 32768.0));
        assert_eq!((g(whole.min[bucket]), g(whole.max[bucket])), (low, high));
    }
    assert_eq!(g(fold(&samples, 0).buckets_per_second), 1.0);
    assert_eq!(fold(&samples, u32::MAX).min.len(), 5000);
    assert_eq!(g(fold(&samples, 7).buckets_per_second), 48_000.0 / 6857.0);
}

#[test]
fn encode_lays_out_rate_count_min_max_and_decode_reads_it_back() {
    let peaks = Peaks {
        min: singles(&[-0.5, 0.0]),
        max: singles(&[0.25, 0.0]),
        buckets_per_second: s(200.0),
    };
    let bytes = peaks.encode();
    assert_eq!(bytes.len(), 8 + 2 * 8);
    assert_eq!(f32::from_le_bytes(bytes[0..4].try_into().unwrap()), 200.0);
    assert_eq!(u32::from_le_bytes(bytes[4..8].try_into().unwrap()), 2);
    assert_eq!(f32::from_le_bytes(bytes[8..12].try_into().unwrap()), -0.5);
    assert_eq!(f32::from_le_bytes(bytes[16..20].try_into().unwrap()), 0.25);
    let back = Peaks::decode(&bytes).expect("decodes");
    assert_eq!(floats(&back.min), floats(&peaks.min));
    assert_eq!(floats(&back.max), floats(&peaks.max));
    assert!(Peaks::decode(&bytes[..10].to_vec()).is_none());
}

#[test]
fn a_coarser_level_keeps_the_extremes_and_the_tail() {
    let fine = Peaks {
        min: singles(&[-0.1, -0.9, -0.2, -0.3, -0.5]),
        max: singles(&[0.4, 0.2, 0.8, 0.1, 0.6]),
        buckets_per_second: s(1000.0),
    };
    let half = fine.coarser(2);
    assert_eq!(floats(&half.min), vec![-0.9, -0.3, -0.5]);
    assert_eq!(floats(&half.max), vec![0.4, 0.8, 0.6]);
    assert_eq!(g(half.buckets_per_second), 500.0);
    assert_eq!(
        fine.coarser(0).len(),
        5,
        "a factor of nothing is the same shape"
    );
    assert!(
        Peaks {
            min: vec![],
            max: vec![],
            buckets_per_second: s(1000.0)
        }
        .coarser(4)
        .is_empty()
    );
}

#[test]
fn the_pyramid_hands_out_the_level_that_fits_the_column() {
    let fine = Peaks {
        min: singles(&[-0.5; 4096]),
        max: singles(&[0.5; 4096]),
        buckets_per_second: s(1000.0),
    };
    let pyramid = Pyramid::of(fine);
    assert_eq!(pyramid.depth(), 7, "4096 halves to 64 in six steps");
    // A column of one millisecond reads the finest; of a second, the coarsest
    // that still puts at least one bucket in it.
    assert_eq!(g(pyramid.level_for(s(0.001)).buckets_per_second), 1000.0);
    let coarse = pyramid.level_for(s(1.0));
    let rate = g(coarse.buckets_per_second);
    assert!(rate <= 1000.0 / 64.0 + 1e-6, "{rate}");
    assert!(rate * 1.0 >= 1.0);
    // A column finer than the finest bucket still gets the finest.
    assert_eq!(g(pyramid.level_for(s(1e-9)).buckets_per_second), 1000.0);
    assert_eq!(g(pyramid.level_for(s(f32::NAN)).buckets_per_second), 1000.0);
    assert_eq!(g(pyramid.level_for(s(-1.0)).buckets_per_second), 1000.0);
    // Every level says the same about the whole file.
    let (low, high) = pyramid.finest().extremes(s(0.0), s(4.096));
    let (clow, chigh) = coarse.extremes(s(0.0), s(4.096));
    assert_eq!((g(low), g(high)), (g(clow), g(chigh)));
    // Past the end is silence, not a panic.
    let past = coarse.extremes(s(100.0), s(200.0));
    assert_eq!((g(past.0), g(past.1)), (0.0, 0.0));
    let backwards = coarse.extremes(s(2.0), s(1.0));
    assert_eq!((g(backwards.0), g(backwards.1)), (0.0, 0.0));
}

/// The extremes over a span, as the machine's own arithmetic finds them.
fn machine_extremes(min: &[f32], max: &[f32], rate: f32, from: f32, to: f32) -> (f32, f32) {
    let count = min.len();
    if count == 0 || to <= from || rate <= 0.0 {
        return (0.0, 0.0);
    }
    let (start, end) = (from * rate, to * rate);
    let mut first = ((start - 1e-3).ceil().max(0.0) as usize).min(count);
    let mut last = ((end - 1e-3).ceil().max(0.0) as usize).min(count);
    if first >= last {
        if start >= count as f32 {
            return (0.0, 0.0);
        }
        first = (start.floor().max(0.0) as usize).min(count - 1);
        last = first + 1;
    }
    let low = min[first..last].iter().copied().fold(0.0, f32::min);
    let high = max[first..last].iter().copied().fold(0.0, f32::max);
    (low, high)
}

#[test]
fn spans_are_read_as_the_machine_reads_them() {
    let min: Vec<f32> = (0..300).map(|i| -((i * 37 % 101) as f32) / 101.0).collect();
    let max: Vec<f32> = (0..300).map(|i| ((i * 53 % 97) as f32) / 97.0).collect();
    for rate in [200.0f32, 33.3, 1000.0, 0.7] {
        let peaks = Peaks {
            min: singles(&min),
            max: singles(&max),
            buckets_per_second: s(rate),
        };
        for step in 0..400 {
            let from = step as f32 * 0.0137 - 0.2;
            for width in [0.0005f32, 0.01, 0.3, -1.0] {
                let found = peaks.extremes(s(from), s(from + width));
                assert_eq!(
                    (g(found.0), g(found.1)),
                    machine_extremes(&min, &max, rate, from, from + width),
                    "{rate} {from} {width}"
                );
            }
        }
        for factor in [1usize, 2, 3, 7, 1000, (1 << 60) + (1 << 36) + 1, usize::MAX] {
            assert_eq!(
                g(peaks.coarser(factor).buckets_per_second),
                rate / factor as f32
            );
        }
    }
}

#[test]
fn whole_numbers_round_to_singles_once() {
    let mut seed: u64 = 0x1234_5678_9abc_def1;
    let mut counts = vec![0u64, 1, 2, 3, 16_777_215, 16_777_216, 16_777_217, 16_777_219, u64::MAX];
    counts.push((1 << 60) + (1 << 36) + 1);
    counts.push((1 << 60) + (1 << 36));
    for shift in 0..64 {
        seed = seed.wrapping_mul(6364136223846793005).wrapping_add(1442695040888963407);
        counts.push(seed >> shift);
    }
    for count in counts {
        assert_eq!(g(Single::from_count(count)).to_bits(), (count as f32).to_bits(), "{count}");
    }
}

#[test]
fn single_precision_agrees_with_the_machine() {
    let mut seed: u64 = 0xdead_beef_1234_5679;
    let mut values = vec![0.0f32, -0.0, 1.0, f32::MAX, f32::MIN_POSITIVE, 1e-45, 3.5e-41, -7.25];
    for _ in 0..400 {
        seed = seed.wrapping_mul(6364136223846793005).wrapping_add(1442695040888963407);
        let value = f32::from_bits((seed >> 32) as u32);
        if value.is_finite() {
            values.push(value);
        }
    }
    for a in &values {
        assert_eq!(f(s(*a).widen()).to_bits(), f64::from(*a).to_bits());
        for b in values.iter().step_by(7) {
            assert_eq!(g(s(*a).times(s(*b))).to_bits(), (a * b).to_bits(), "{a} * {b}");
            assert_eq!(g(s(*a).minus(s(*b))).to_bits(), (a - b).to_bits(), "{a} - {b}");
            if *b != 0.0 {
                assert_eq!(g(s(*a).over(s(*b))).to_bits(), (a / b).to_bits(), "{a} / {b}");
            }
        }
    }
}

// The queue.

#[test]
fn jobs_run_in_priority_order() {
    let mut queue = Queue::new(1);
    queue.submit(Priority::Filmstrip, 0);
    assert_eq!(queue.work(), Turn::Run(Priority::Filmstrip, 0));
    for (priority, job) in [
        (Priority::Artwork, 1),
        (Priority::Proxy, 2),
        (Priority::Filmstrip, 3),
        (Priority::Artwork, 4),
        (Priority::Playback, 5),
    ] {
        queue.submit(priority, job);
    }
    queue.finish(Priority::Filmstrip);
    let mut order = Vec::new();
    while !queue.drained() {
        match queue.work() {
            Turn::Run(priority, job) => {
                order.push(job);
                queue.finish(priority);
            }
            other => panic!("nothing holds the worker back: {other:?}"),
        }
    }
    assert_eq!(order, vec![5, 3, 1, 4, 2]);
}

/// A job that is counted as finished whatever it did leaves the counters where
/// they were, so the next job runs and the queue drains.
#[test]
fn a_finished_job_brings_the_counters_back_down() {
    let mut queue = Queue::new(1);
    queue.submit(Priority::Artwork, 1);
    queue.submit(Priority::Artwork, 2);
    assert_eq!(queue.work(), Turn::Run(Priority::Artwork, 1));
    assert_eq!(queue.counters(), (1, 1, 0));
    assert_eq!(queue.work(), Turn::Wait, "its one worker is spent");
    queue.finish(Priority::Artwork);
    assert_eq!(queue.work(), Turn::Run(Priority::Artwork, 2));
    queue.finish(Priority::Artwork);
    assert_eq!(queue.counters(), (0, 0, 0));
    assert!(queue.drained());
}

/// With two workers, one is kept clear of background work: two artwork jobs
/// never run together, and a playback job queued while one artwork job runs
/// takes the free worker at once.
#[test]
fn background_work_never_takes_the_last_worker() {
    let mut queue = Queue::new(2);
    for job in 0..6 {
        queue.submit(Priority::Artwork, job);
    }
    assert_eq!(queue.work(), Turn::Run(Priority::Artwork, 0));
    assert_eq!(queue.work(), Turn::Wait);
    queue.submit(Priority::Playback, 9);
    assert_eq!(queue.work(), Turn::Run(Priority::Playback, 9));
    queue.finish(Priority::Artwork);
    assert_eq!(queue.work(), Turn::Run(Priority::Artwork, 1));
    assert_eq!(queue.pending(Priority::Artwork), 4);
}

#[test]
fn one_proxy_at_a_time_and_a_closed_queue_runs_nothing() {
    let mut queue = Queue::new(4);
    queue.submit(Priority::Proxy, 1);
    queue.submit(Priority::Proxy, 2);
    queue.submit(Priority::Artwork, 3);
    assert_eq!(queue.work(), Turn::Run(Priority::Artwork, 3));
    assert_eq!(queue.work(), Turn::Run(Priority::Proxy, 1));
    assert_eq!(queue.work(), Turn::Wait, "proxies run alone");
    queue.supersede(&vec![7, 8]);
    queue.supersede(&vec![9]);
    assert_eq!(queue.pending(Priority::Playback), 1);
    queue.close();
    queue.submit(Priority::Playback, 10);
    queue.supersede(&vec![11]);
    assert_eq!(queue.pending(Priority::Playback), 0);
    assert_eq!(queue.work(), Turn::Leave);
    assert_eq!(
        Priority::all().iter().map(|p| p.background()).collect::<Vec<_>>(),
        vec![false, false, true, true]
    );
}

/// A cursor that turns round keeps what is now ahead of it and lets go of what
/// is now behind.
#[test]
fn a_turned_cursor_keeps_what_is_ahead_of_it_now() {
    let fps = 30.0;
    let mut ahead = Ahead::new();
    let at = |index: i64| n(index as f64 / fps);
    let forward = Cursor { time: at(10), direction: Direction::Forward, rate: n(1.0) };
    let first = ahead.advance(forward, n(1.0 / fps));
    for index in 11..19 {
        assert!(ahead.worth_decoding(first, at(index)));
        ahead.hold(first, at(index), index as u64);
    }
    assert_eq!(ahead.held_ahead(), 8);
    assert_eq!(ahead.held_frames(), (11..19).collect::<Vec<u64>>());
    let back = Cursor { time: at(14), direction: Direction::Backward, rate: n(-1.0) };
    let second = ahead.advance(back, n(1.0 / fps));
    let slack = 1.0 / fps + 1e-6;
    assert!(ahead.held_instants().iter().all(|time| f(*time) <= 14.0 / fps + slack));
    assert!(!ahead.worth_decoding(first, at(13)), "made for the last cursor");
    assert!(ahead.worth_decoding(second, at(13)));
    assert!(!ahead.worth_decoding(second, at(30)), "30 is behind a backward cursor at 14");
    ahead.hold(first, at(12), 99);
    assert!(ahead.held_instants().len() <= 5, "a stale decode is not held");
}

/// The cursor's instants are held until passed, and a moved cursor drops what
/// it has passed.
#[test]
fn instants_ahead_are_held_and_released_once_passed() {
    let fps = 30.0;
    let mut ahead = Ahead::new();
    assert!(ahead.cursor().is_none());
    let at = |index: i64| n(index as f64 / fps);
    let cursor = |index: i64| Cursor {
        time: at(index),
        direction: Direction::Forward,
        rate: n(1.0),
    };
    let decode = |ahead: &mut Ahead, from: i64| {
        let generation = ahead.advance(cursor(from), n(1.0 / fps));
        for index in from + 1..from + 1 + i64::from(AHEAD) {
            if ahead.worth_decoding(generation, at(index)) {
                ahead.hold(generation, at(index), index as u64);
            }
        }
    };
    decode(&mut ahead, 0);
    assert_eq!(ahead.held_ahead(), AHEAD as usize);
    decode(&mut ahead, 5);
    let held = ahead.held_ahead();
    assert!(
        (AHEAD as usize + 4..=AHEAD as usize + 6).contains(&held),
        "held {held}: the passed instants were released"
    );
    decode(&mut ahead, 20);
    assert_eq!(ahead.held_ahead(), AHEAD as usize);
    assert!(!ahead.worth_decoding(3, at(2)), "the cursor has passed it");
}

#[test]
fn a_quarter_of_the_machine_decodes() {
    assert_eq!(default_workers(None), 2);
    assert_eq!(default_workers(Some(4)), 2);
    assert_eq!(default_workers(Some(12)), 3);
    assert_eq!(default_workers(Some(64)), 4);
}

// Budgets.

fn measure(value: f64, budget: Budget) -> Measure {
    Measure {
        name: String::new(),
        value: n(value),
        unit: String::new(),
        budget,
        note: String::new(),
    }
}

#[test]
fn a_budget_reads_the_right_way_round() {
    let under = measure(1.0, Budget::AtMost(n(2.0)));
    let over = measure(3.0, Budget::AtMost(n(2.0)));
    let enough = measure(3.0, Budget::AtLeast(n(2.0)));
    let short = measure(1.0, Budget::AtLeast(n(2.0)));
    assert!(under.holds() && enough.holds());
    assert!(!over.holds() && !short.holds());
    assert_eq!((under.mark(), over.mark(), short.mark()), ("ok ", "OVER", "UNDER"));
    assert_eq!(failures(&vec![under, over, enough, short]), 2);
}
