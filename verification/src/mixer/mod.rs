//! The mixer side of the engine: tempo changes and where they fall in samples.

mod tempo_event;
mod tempo_map;
mod track_id;

pub use tempo_event::{spec_event_ticks_to_samples, spec_samples_per_tick_fp, TempoEvent, FACTOR_SCALE};
pub use tempo_map::{
    elapsed_samples, governing_index, insertion_index, lemma_event_tick_falls_on_its_offset, lemma_remove_undoes_add, lemma_add_event_keeps_events, lemma_added_event_tempo_changes, lemma_offsets_nondecreasing,
    lemma_ticks_to_samples_monotone, next_event_sample, no_truncation, sections_tile, SectionBounds, offset_ok, step_computable, offsets_computable, offsets_consistent, planned_offset,
    section_samples, spec_ticks_to_samples, splits_after, splits_before, spec_with_event, tempo_changes, ticks_increasing, TempoMap,
};
pub use track_id::{first_free_track_id, TrackID};
