use audio_engine::data_types::{AudioContext, PlaybackContext, Ticks};
use audio_engine::mixer::{first_free_track_id, SectionBounds, TempoEvent, TempoMap, TrackID};

fn audio_ctx(resolution: u64) -> AudioContext {
    AudioContext { resolution, channels: 2, sample_rate: 48000, buffer_size: 512, max_voices: 32 }
}

fn playback() -> PlaybackContext {
    PlaybackContext { sample_rate: 48000, buffer_size: 512, channels: 2 }
}

/// 120 bpm at 960 ticks per beat and 48000 samples per second: 25 samples per tick.
fn prepared_map() -> TempoMap {
    let mut map = TempoMap::new(audio_ctx(960), 120);
    map.prepare(playback());
    map
}

const FP_ONE: u64 = 1 << 32;

#[test]
fn new_map_has_one_event_at_tick_zero() {
    let map = TempoMap::new(audio_ctx(960), 120);
    assert_eq!(map.events().len(), 1);
    assert_eq!(map.events()[0].ticks(), Ticks(0));
    assert_eq!(map.events()[0].bpm(), 120);
    assert_eq!(map.events()[0].sample_offset(), 0);
    assert!(map.playback_ctx().is_none());
    assert_eq!(map.audio_ctx().resolution, 960);
}

#[test]
fn prepare_sets_the_samples_per_tick() {
    let map = prepared_map();
    assert_eq!(map.events()[0].samples_per_tick_fp(), 25 * FP_ONE);
    assert_eq!(map.ticks_to_samples(Ticks(0)), 0);
    assert_eq!(map.ticks_to_samples(Ticks(1)), 25);
    assert_eq!(map.ticks_to_samples(Ticks(480)), 12000);
    assert_eq!(map.ticks_to_samples(Ticks(960)), 24000);
    // Ticks before the first event fall on sample zero
    assert_eq!(map.ticks_to_samples(Ticks(-10)), 0);
}

#[test]
fn added_event_starts_where_its_tick_falls() {
    let mut map = prepared_map();
    map.add_event(TempoEvent::new(Ticks(960), 60, 0));
    assert_eq!(map.events().len(), 2);
    assert_eq!(map.events()[1].sample_offset(), 24000);
    assert_eq!(map.events()[1].samples_per_tick_fp(), 50 * FP_ONE);
    assert_eq!(map.ticks_to_samples(Ticks(960)), 24000);
    assert_eq!(map.ticks_to_samples(Ticks(1920)), 72000);
    assert_eq!(map.ticks_to_samples(Ticks(959)), 23975);
}

#[test]
fn added_event_at_an_existing_tick_replaces_it() {
    let mut map = prepared_map();
    map.add_event(TempoEvent::new(Ticks(960), 60, 0));
    map.add_event(TempoEvent::new(Ticks(960), 240, 0));
    assert_eq!(map.events().len(), 2);
    assert_eq!(map.events()[1].bpm(), 240);
    assert_eq!(map.ticks_to_samples(Ticks(1920)), 24000 + 960 * 25 / 2);
}

#[test]
fn events_stay_sorted_by_tick() {
    let mut map = prepared_map();
    map.add_event(TempoEvent::new(Ticks(1920), 60, 0));
    map.add_event(TempoEvent::new(Ticks(960), 240, 0));
    let ticks: Vec<Ticks> = map.events().iter().map(|e| e.ticks()).collect();
    assert_eq!(ticks, vec![Ticks(0), Ticks(960), Ticks(1920)]);
    // 960 ticks at 25 samples, then 960 at 12.5
    assert_eq!(map.events()[2].sample_offset(), 24000 + 12000);
}

#[test]
fn unprepared_map_keeps_the_given_offsets() {
    let mut map = TempoMap::new(audio_ctx(960), 120);
    map.add_event(TempoEvent::new(Ticks(960), 60, 7));
    assert_eq!(map.events()[1].sample_offset(), 7);
    map.prepare(playback());
    assert_eq!(map.events()[1].sample_offset(), 24000);
}

#[test]
fn remove_event_undoes_add_event() {
    let mut map = prepared_map();
    map.add_event(TempoEvent::new(Ticks(960), 60, 0));
    map.remove_event(1);
    assert_eq!(map.events().len(), 1);
    assert_eq!(map.ticks_to_samples(Ticks(1920)), 48000);
    // The first event stays
    map.remove_event(0);
    assert_eq!(map.events().len(), 1);
}

#[test]
fn change_bpm_moves_the_later_events() {
    let mut map = prepared_map();
    map.add_event(TempoEvent::new(Ticks(960), 60, 0));
    map.change_bpm(0, 60);
    assert_eq!(map.events()[0].bpm(), 60);
    assert_eq!(map.events()[1].sample_offset(), 48000);
    assert_eq!(map.ticks_to_samples(Ticks(480)), 24000);
    // An index past the events changes nothing
    map.change_bpm(5, 200);
    assert_eq!(map.events().len(), 2);
    assert_eq!(map.events()[1].bpm(), 60);
}

#[test]
fn set_audio_ctx_recalculates_offsets() {
    let mut map = prepared_map();
    map.add_event(TempoEvent::new(Ticks(960), 60, 0));
    map.set_audio_ctx(audio_ctx(480));
    // 50 samples per tick at 120 bpm and 480 ticks per beat
    assert_eq!(map.events()[1].sample_offset(), 48000);
    assert_eq!(map.ticks_to_samples(Ticks(480)), 24000);
}

#[test]
fn event_index_at_sample() {
    let mut map = prepared_map();
    map.add_event(TempoEvent::new(Ticks(960), 60, 0));
    assert_eq!(map.event_index_at_sample(0), 0);
    assert_eq!(map.event_index_at_sample(23999), 0);
    assert_eq!(map.event_index_at_sample(24000), 1);
    assert_eq!(map.event_index_at_sample(usize::MAX), 1);
}

#[test]
fn sections_split_at_tempo_changes() {
    let mut map = prepared_map();
    map.add_event(TempoEvent::new(Ticks(960), 60, 0));
    assert_eq!(
        map.section_bounds_in_range(20000, 30000),
        vec![
            SectionBounds { start_sample: 20000, end_sample: 24000, event_index: 0 },
            SectionBounds { start_sample: 24000, end_sample: 30000, event_index: 1 },
        ]
    );
    assert_eq!(
        map.section_bounds_in_range(25000, 26000),
        vec![SectionBounds { start_sample: 25000, end_sample: 26000, event_index: 1 }]
    );
    assert_eq!(map.section_bounds_in_range(30000, 30000), vec![]);
    let unprepared = TempoMap::new(audio_ctx(960), 120);
    assert_eq!(unprepared.section_bounds_in_range(0, 100), vec![]);
}

#[test]
fn tempo_events_compare_by_tick() {
    let a = TempoEvent::new(Ticks(5), 120, 0);
    let b = TempoEvent::new(Ticks(5), 60, 10);
    let c = TempoEvent::new(Ticks(6), 120, 0);
    assert!(a == b);
    assert!(a != c);
    assert!(a < c);
    assert!(c > b);
    assert_eq!(a.partial_cmp(&b), Some(std::cmp::Ordering::Equal));
    assert_eq!(c.partial_cmp(&a), Some(std::cmp::Ordering::Greater));
}

#[test]
fn tempo_event_setters() {
    let mut event = TempoEvent::new(Ticks(0), 120, 0);
    assert_eq!(event.samples_per_tick_fp(), 0);
    event.set_ticks(Ticks(10));
    event.set_sample_offset(99);
    assert_eq!(event.ticks(), Ticks(10));
    assert_eq!(event.sample_offset(), 99);
    // The factor follows the new bpm: 50 samples per tick at 60 bpm
    event.set_bpm(60, 48000, 960);
    assert_eq!(event.bpm(), 60);
    assert_eq!(event.samples_per_tick_fp(), 50 * FP_ONE);
    event.set_bpm(120, 48000, 960);
    assert_eq!(event.samples_per_tick_fp(), 25 * FP_ONE);
}

#[test]
fn track_ids_are_plain_numbers() {
    assert_eq!(TrackID(3), TrackID(3));
    assert_ne!(TrackID(3), TrackID(4));
    assert_eq!(TrackID::default(), TrackID(0));
}

#[test]
fn checked_conversion_needs_the_first_event_at_tick_zero() {
    let map = prepared_map();
    assert_eq!(map.checked_ticks_to_samples(Ticks(960)), Some(24000));
    assert_eq!(map.checked_ticks_to_samples(Ticks(-5)), Some(0));
    let mut shifted = TempoMap::new(audio_ctx(960), 120);
    shifted.add_event(TempoEvent::new(Ticks(-960), 120, 0));
    assert_eq!(shifted.events()[0].ticks(), Ticks(-960));
    assert_eq!(shifted.checked_ticks_to_samples(Ticks(0)), None);
}

#[test]
fn change_bpm_on_an_unprepared_map_changes_only_the_bpm() {
    let mut map = TempoMap::new(audio_ctx(960), 120);
    map.add_event(TempoEvent::new(Ticks(960), 60, 777));
    let before = map.events()[1];
    map.change_bpm(1, 90);
    let after = map.events()[1];
    assert_eq!(after.bpm(), 90);
    assert_eq!(after.ticks(), before.ticks());
    assert_eq!(after.sample_offset(), 777);
    assert_eq!(after.samples_per_tick_fp(), before.samples_per_tick_fp());
    assert_eq!(map.events()[0].bpm(), 120);
    assert_eq!(map.events().len(), 2);
}

#[test]
fn first_free_track_id_skips_the_ids_in_use() {
    let taken = vec![TrackID(0), TrackID(1), TrackID(3)];
    assert_eq!(first_free_track_id(&taken, 0), Some(TrackID(2)));
    assert_eq!(first_free_track_id(&taken, 3), Some(TrackID(4)));
    assert_eq!(first_free_track_id(&vec![], 7), Some(TrackID(7)));
    assert_eq!(first_free_track_id(&vec![], u64::MAX), None);
    assert_eq!(first_free_track_id(&vec![TrackID(u64::MAX - 1)], u64::MAX - 1), None);
}
