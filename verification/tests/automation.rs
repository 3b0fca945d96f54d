use audio_engine::data_types::Ticks;
use audio_engine::graph::automation::{ConstantAutomationCursor, FloatAutomationCursor, Keyframe};
use audio_engine::node::builtin::automation_node::{
    keyframe_partition_point, keyframes_around_range, stable_tick_order, FloatAutomationCursor as SegmentCursor,
    KeyframeSegment,
};

fn keyframes(values: &[i32]) -> Vec<Keyframe<i32>> {
    values
        .iter()
        .enumerate()
        .map(|(i, v)| Keyframe { ticks: Ticks(i as i64 * 960), value: *v })
        .collect()
}

#[test]
fn constant_cursor_finds_the_holding_keyframe() {
    let kfs = keyframes(&[1, 2, 3]);
    let samples = [0usize, 100, 200];
    let mut cursor = ConstantAutomationCursor::default();
    assert_eq!(cursor.get_constant_keyframe_value(&kfs, &samples, 50), 1);
    assert_eq!(cursor.current_index, Some(0));
    assert_eq!(cursor.get_constant_keyframe_value(&kfs, &samples, 150), 2);
    assert_eq!(cursor.current_index, Some(1));
    assert_eq!(cursor.get_constant_keyframe_value(&kfs, &samples, 250), 3);
    assert_eq!(cursor.current_index, Some(2));
    // Going back searches again
    assert_eq!(cursor.get_constant_keyframe_value(&kfs, &samples, 20), 1);
}

#[test]
fn constant_cursor_on_a_keyframe_sample() {
    let kfs = keyframes(&[1, 2, 3]);
    let samples = [0usize, 100, 200];
    // A fresh search gives the keyframe that starts there
    let mut fresh = ConstantAutomationCursor::default();
    assert_eq!(fresh.get_constant_keyframe_value(&kfs, &samples, 100), 2);
    // The value changes at the keyframe's own sample, whatever the cursor remembers
    let mut remembered = ConstantAutomationCursor { current_index: Some(0) };
    assert_eq!(remembered.get_constant_keyframe_value(&kfs, &samples, 100), 2);
    assert_eq!(remembered.current_index, Some(1));
    let mut two = ConstantAutomationCursor { current_index: Some(0) };
    let pair = keyframes(&[1, 2]);
    assert_eq!(two.get_constant_keyframe_value(&pair, &[0, 10], 10), 2);
}

#[test]
fn constant_cursor_before_the_first_keyframe() {
    let kfs = keyframes(&[5, 6]);
    let samples = [100usize, 200];
    let mut cursor = ConstantAutomationCursor::default();
    assert_eq!(cursor.get_constant_keyframe_index(&samples, 10), Some(0));
    assert_eq!(cursor.get_constant_keyframe_value(&kfs, &samples, 10), 5);
}

#[test]
fn constant_cursor_without_keyframes_or_with_one() {
    let mut cursor = ConstantAutomationCursor::default();
    assert_eq!(cursor.get_constant_keyframe_index(&[], 10), None);
    assert_eq!(cursor.get_constant_keyframe_value::<i32>(&[], &[], 10), 0);
    assert!(!cursor.get_constant_keyframe_value::<bool>(&[], &[], 10));
    let one = keyframes(&[7]);
    assert_eq!(cursor.get_constant_keyframe_index(&[300], 10), Some(0));
    assert_eq!(cursor.get_constant_keyframe_value(&one, &[300], 10), 7);
    assert_eq!(cursor.current_index, None);
}

#[test]
fn constant_cursor_clear_cache() {
    let mut cursor = ConstantAutomationCursor { current_index: Some(3) };
    cursor.clear_cache();
    assert_eq!(cursor.current_index, None);
}

#[test]
fn constant_values_of_a_block() {
    let kfs = keyframes(&[1, 2, 3]);
    let samples = [0usize, 100, 200];
    let mut cursor = ConstantAutomationCursor::default();
    assert_eq!(cursor.values_in_block(&kfs, &samples, 98, 4), vec![1, 1, 2, 2]);
    assert_eq!(cursor.values_in_block(&kfs, &samples, 199, 3), vec![2, 3, 3]);
    let bools = vec![Keyframe { ticks: Ticks(0), value: false }, Keyframe { ticks: Ticks(10), value: true }];
    let mut cursor = ConstantAutomationCursor::default();
    // On the next keyframe's sample its value takes over
    assert_eq!(cursor.values_in_block(&bools, &[0, 3], 1, 4), vec![false, false, true, true]);
    assert_eq!(cursor.values_in_block::<i32>(&[], &[], 0, 3), vec![0, 0, 0]);
    assert_eq!(cursor.values_in_block(&kfs, &samples, 0, 0), Vec::<i32>::new());
}

#[test]
fn float_cursor_finds_the_covering_gradient() {
    let gradients = [(100usize, 0.0f32), (200, 0.5), (300, 0.25)];
    let mut cursor = FloatAutomationCursor::default();
    assert_eq!(cursor.get_gradient_at(&gradients, 50), 0.0);
    assert_eq!(cursor.get_gradient_at(&gradients, 150), 0.5);
    assert_eq!(cursor.current_index, Some(1));
    assert_eq!(cursor.get_gradient_at(&gradients, 250), 0.25);
    assert_eq!(cursor.current_index, Some(2));
    // After the last range the gradient is zero and the cursor stays
    assert_eq!(cursor.get_gradient_at(&gradients, 350), 0.0);
    assert_eq!(cursor.current_index, Some(2));
    // On a range end the remembered range still applies
    assert_eq!(cursor.get_gradient_at(&gradients, 200), 0.25);
    let mut fresh = FloatAutomationCursor::default();
    assert_eq!(fresh.get_gradient_at(&gradients, 200), 0.5);
    assert_eq!(fresh.get_gradient_at::<f32>(&[], 10), 0.0);
}

#[test]
fn float_cursor_calculates_the_index() {
    let gradients = [(100usize, 1i32), (200, 2)];
    let mut cursor = FloatAutomationCursor::default();
    cursor.calculate_grad_index(&gradients, 100);
    assert_eq!(cursor.current_index, Some(0));
    cursor.calculate_grad_index(&gradients, 101);
    assert_eq!(cursor.current_index, Some(1));
    cursor.calculate_grad_index(&gradients, 201);
    assert_eq!(cursor.current_index, None);
    cursor.calculate_grad_index::<i32>(&[], 0);
    assert_eq!(cursor.current_index, None);
    cursor.current_index = Some(1);
    cursor.clear_cache();
    assert_eq!(cursor.current_index, None);
}

#[test]
fn segment_cursor_locates_samples() {
    let samples = [100usize, 200, 300];
    let mut cursor = SegmentCursor::default();
    assert_eq!(cursor.locate(&samples, 50), KeyframeSegment::Hold(0));
    assert_eq!(cursor.locate(&samples, 150), KeyframeSegment::Interpolate(0));
    assert_eq!(cursor.locate(&samples, 200), KeyframeSegment::Interpolate(1));
    assert_eq!(cursor.locate(&samples, 299), KeyframeSegment::Interpolate(1));
    assert_eq!(cursor.locate(&samples, 300), KeyframeSegment::Hold(2));
    assert_eq!(cursor.locate(&samples, 900), KeyframeSegment::Hold(2));
    assert_eq!(cursor.current_index, Some(2));
    // On the first keyframe's sample a fresh search holds the first value,
    // while a remembered first segment interpolates from it
    let mut fresh = SegmentCursor::default();
    assert_eq!(fresh.locate(&samples, 100), KeyframeSegment::Hold(0));
    let mut remembered = SegmentCursor { current_index: Some(0) };
    assert_eq!(remembered.locate(&samples, 100), KeyframeSegment::Interpolate(0));
    let mut empty = SegmentCursor::default();
    assert_eq!(empty.locate(&[], 5), KeyframeSegment::Empty);
    let mut single = SegmentCursor::default();
    assert_eq!(single.locate(&[40], 5), KeyframeSegment::Hold(0));
    single.current_index = Some(0);
    single.clear_cache();
    assert_eq!(single.current_index, None);
}

#[test]
fn keyframe_partition_point_finds_the_insertion_place() {
    let ticks = [Ticks(0), Ticks(100), Ticks(100), Ticks(300)];
    assert_eq!(keyframe_partition_point(&ticks, Ticks(-5)), 0);
    assert_eq!(keyframe_partition_point(&ticks, Ticks(100)), 1);
    assert_eq!(keyframe_partition_point(&ticks, Ticks(101)), 3);
    assert_eq!(keyframe_partition_point(&ticks, Ticks(400)), 4);
    assert_eq!(keyframe_partition_point(&[], Ticks(1)), 0);
}

#[test]
fn keyframes_around_a_range() {
    let ticks = [Ticks(0), Ticks(100), Ticks(200), Ticks(300), Ticks(400)];
    // The keyframes inside, and one on each side
    assert_eq!(keyframes_around_range(&ticks, Ticks(150), Ticks(250)), (1, 4));
    assert_eq!(keyframes_around_range(&ticks, Ticks(100), Ticks(300)), (0, 4));
    assert_eq!(keyframes_around_range(&ticks, Ticks(-50), Ticks(50)), (0, 2));
    assert_eq!(keyframes_around_range(&ticks, Ticks(350), Ticks(1000)), (3, 5));
    assert_eq!(keyframes_around_range(&[], Ticks(0), Ticks(10)), (0, 0));
    // An inverted range gives an inverted index range
    assert_eq!(keyframes_around_range(&ticks, Ticks(300), Ticks(0)), (2, 1));
}

#[test]
fn stable_tick_order_sorts_and_keeps_equal_ticks_in_place() {
    let ticks = vec![Ticks(960), Ticks(0), Ticks(960), Ticks(-5), Ticks(0)];
    assert_eq!(stable_tick_order(&ticks), vec![3, 1, 4, 0, 2]);
    assert_eq!(stable_tick_order(&[]), Vec::<usize>::new());
    assert_eq!(stable_tick_order(&[Ticks(1), Ticks(2), Ticks(3)]), vec![0, 1, 2]);
}
