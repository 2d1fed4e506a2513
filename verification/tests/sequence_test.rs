use std::cmp::{max, min};
use std::collections::HashSet;

use audio_gen::generator::plan_generator;
use audio_gen::graph::NodeRegistry;
use audio_gen::node_signature::{NodeSignature, NodeType};
use audio_gen::scheduler::{nodes_to_references, Reference};
use audio_gen::sequence::{IntervalTracker, SequencePlanner, SourceInterval};

fn threshold_eq_float32(value: f32, target: f32) -> bool {
    let margin = 0.0001;
    target - margin <= value && target + margin >= value
}

/// A sequencer over generators that each give `value` at every sample.
struct ConstantSequencer {
    tracker: IntervalTracker,
    value: f32,
}

impl ConstantSequencer {
    fn new(intervals: &[(u32, u32)], value: f32) -> Self {
        // Each generator is a graph of one constant node, which plans.
        for _ in intervals {
            let references = nodes_to_references(&vec![Reference { id: 0, child_ids: vec![] }]).unwrap();
            let plan = plan_generator(references).unwrap();
            assert_eq!(plan.root_id, 0);
            assert_eq!(plan.layers, vec![vec![0]]);
        }
        let starts = intervals.iter().map(|interval| interval.0).collect();
        let ends = intervals.iter().map(|interval| interval.1).collect();
        ConstantSequencer { tracker: IntervalTracker::new(starts, ends, false), value }
    }

    fn poll(&mut self) -> Option<f32> {
        self.tracker
            .poll()
            .map(|playing| playing.iter().map(|_| self.value).sum())
    }
}

#[test]
fn test_non_overlapping_sample_existence() {
    const NUM_GENERATORS: u32 = 10;
    const FLOAT_VALUE: f32 = 1.0;
    let mut generator_intervals: Vec<(u32, u32)> = vec![];
    let mut last_sample_index = 0;
    let mut expected_some_indices: HashSet<u32> = HashSet::new();

    for i in 0..NUM_GENERATORS {
        let start_index = i * 4;
        let end_index = start_index + 2;
        for j in start_index..end_index + 1 {
            expected_some_indices.insert(j);
        }
        last_sample_index = max(last_sample_index, end_index);
        generator_intervals.push((start_index, end_index));
    }

    let mut sequencer = ConstantSequencer::new(&generator_intervals, FLOAT_VALUE);
    for i in 0..last_sample_index + 1 {
        let sample = sequencer.poll().unwrap(); // Stream shouldn't end in this loop
        if expected_some_indices.contains(&i) {
            assert_eq!(sample, FLOAT_VALUE);
        } else {
            assert_eq!(sample, 0.);
        }
    }

    let sample = sequencer.poll();
    assert!(sample.is_none()); // All generators should have been consumed in the earlier loop
}

#[test]
fn sequencer_test_test_overlapping_sample_aggregation() {
    const NUM_GENERATORS: u32 = 7;
    const FLOAT_VALUE: f32 = 1.0;
    const INTERVAL_LENGTH: u32 = 5;
    let mut generator_intervals: Vec<(u32, u32)> = vec![];

    for i in 0..NUM_GENERATORS {
        generator_intervals.push((i, i + INTERVAL_LENGTH - 1));
    }

    let mut sequencer = ConstantSequencer::new(&generator_intervals, FLOAT_VALUE);
    for i in 0..NUM_GENERATORS + INTERVAL_LENGTH - 1 {
        let sample = sequencer.poll().unwrap(); // Stream shouldn't end in this loop
        if i < NUM_GENERATORS - 1 {
            let expected = min(i + 1, INTERVAL_LENGTH) as f32;
            assert!(
                threshold_eq_float32(sample, expected),
                "expected {}, got {}",
                expected,
                sample
            );
        } else {
            let expected = ((NUM_GENERATORS + INTERVAL_LENGTH - 1) - i) as f32;
            assert!(
                threshold_eq_float32(sample, expected),
                "expected {}, got {}",
                expected,
                sample
            );
        }
    }

    let sample = sequencer.poll();
    assert!(sample.is_none()); // All generators should have been consumed in the earlier loop
}

/// A graph of constant sources feeding one sequence node, run for
/// `num_samples` samples; every buffered sample of a source is `value`.
fn run_sequence_graph(
    dedupe: bool,
    sources: &[usize],
    intervals: Vec<SourceInterval>,
    value: f32,
    num_samples: usize,
) -> Vec<f32> {
    let mut graph = NodeRegistry::new(dedupe);
    let mut nodes: Vec<Reference> = vec![];
    let mut source_ids: Vec<usize> = vec![];
    for _ in sources {
        let (id, exists) = graph.register(NodeSignature::new_with_data(
            NodeType::Float,
            vec![],
            value.to_string(),
        ));
        if !exists {
            nodes.push(Reference { id, child_ids: vec![] });
        }
        source_ids.push(id);
    }
    let intervals: Vec<SourceInterval> = intervals
        .into_iter()
        .map(|interval| {
            SourceInterval::new(source_ids[interval.source_id], interval.start_index, interval.end_index)
        })
        .collect();
    let (sequence_id, _) = graph.register(NodeSignature::new_with_data(
        NodeType::Sequence,
        vec![],
        intervals.iter().map(|interval| format!("{:?}", interval)).collect(),
    ));
    let mut planner = SequencePlanner::new(intervals);
    nodes.push(Reference { id: sequence_id, child_ids: planner.dependency_ids().clone() });

    let references = nodes_to_references(&nodes).unwrap();
    let plan = plan_generator(references).unwrap();
    assert_eq!(plan.root_id, sequence_id);
    assert_eq!(plan.layers.last().unwrap(), &vec![sequence_id]);

    let mut buffers: Vec<Vec<f32>> = vec![vec![]; plan.max_id + 1];
    let mut samples = vec![];
    for _ in 0..num_samples {
        let (fills, reads) = planner.poll_plan();
        for source in fills {
            buffers[source].push(value);
        }
        let sample = reads
            .map(|reads| reads.iter().map(|&(source, index)| buffers[source][index]).sum())
            .unwrap_or(0.);
        samples.push(sample);
    }
    samples
}

#[test]
fn sequence_node_test_test_overlapping_sample_aggregation() {
    const NUM_GENERATORS: u32 = 7;
    const FLOAT_VALUE: f32 = 1.0;
    const INTERVAL_LENGTH: u32 = 5;
    let mut intervals: Vec<SourceInterval> = vec![];
    let sources: Vec<usize> = (0..NUM_GENERATORS as usize).collect();

    for i in 0..NUM_GENERATORS {
        intervals.push(SourceInterval::new(i as usize, i, i + INTERVAL_LENGTH - 1));
    }

    let samples = run_sequence_graph(
        false,
        &sources,
        intervals,
        FLOAT_VALUE,
        (NUM_GENERATORS + INTERVAL_LENGTH - 1) as usize,
    );
    for i in 0..NUM_GENERATORS + INTERVAL_LENGTH - 1 {
        let sample = samples[i as usize]; // Stream shouldn't end in this loop
        if i < NUM_GENERATORS - 1 {
            let expected = min(i + 1, INTERVAL_LENGTH) as f32;
            assert!(
                threshold_eq_float32(sample, expected),
                "expected {}, got {}",
                expected,
                sample
            );
        } else {
            let expected = ((NUM_GENERATORS + INTERVAL_LENGTH - 1) - i) as f32;
            assert!(
                threshold_eq_float32(sample, expected),
                "expected {}, got {}",
                expected,
                sample
            );
        }
    }
}

#[test]
fn test_consecutive_same_source() {
    const NUM_INTERVALS: u32 = 5;
    const INTERVAL_LENGTH: u32 = 2;

    let mut intervals: Vec<SourceInterval> = vec![];
    for i in 0..NUM_INTERVALS {
        intervals.push(SourceInterval::new(
            0,
            i * INTERVAL_LENGTH + 1,
            i * INTERVAL_LENGTH + INTERVAL_LENGTH,
        ));
    }

    let samples = run_sequence_graph(
        true,
        &[0],
        intervals,
        1.0,
        (INTERVAL_LENGTH * NUM_INTERVALS) as usize,
    );
    for sample in samples.into_iter().skip(1) {
        assert_eq!(sample, 1.0);
    }
}

#[test]
fn test_endpoint_overlap_same_source() {
    const NUM_INTERVALS: u32 = 5;
    const INTERVAL_LENGTH: u32 = 2;

    let mut intervals: Vec<SourceInterval> = vec![];
    for i in 0..NUM_INTERVALS {
        intervals.push(SourceInterval::new(
            0,
            i * INTERVAL_LENGTH,
            i * INTERVAL_LENGTH + INTERVAL_LENGTH,
        ));
    }

    let samples = run_sequence_graph(
        true,
        &[0],
        intervals,
        1.0,
        (INTERVAL_LENGTH * NUM_INTERVALS) as usize,
    );
    for (i, sample) in samples.into_iter().skip(1).enumerate() {
        assert_eq!(sample, ((i % 2) + 1) as f32);
    }
}

#[test]
fn test_tracker_playing_indices() {
    let mut tracker = IntervalTracker::new(vec![2, 0, 1], vec![3, 1, 1], false);
    assert_eq!(tracker.poll(), Some(vec![1]));
    assert_eq!(tracker.poll(), Some(vec![1, 2]));
    assert_eq!(tracker.poll(), Some(vec![0]));
    assert_eq!(tracker.poll(), Some(vec![0]));
    assert_eq!(tracker.current_sample_index(), 4);
    assert_eq!(tracker.poll(), None);
    assert_eq!(tracker.poll(), None);
    assert_eq!(tracker.current_sample_index(), 4);
}

#[test]
fn test_tracker_without_intervals_ends_at_once() {
    let mut tracker = IntervalTracker::new(vec![], vec![], true);
    assert_eq!(tracker.poll(), None);
    assert_eq!(tracker.current_sample_index(), 0);
}

#[test]
fn test_tracker_start_and_stop_on_one_index() {
    // An interval whose end is just before its start: where its stop is
    // processed first it plays from its start on, else it never plays.
    let mut dequeue_first = IntervalTracker::new(vec![0, 2], vec![5, 1], true);
    let mut queue_first = IntervalTracker::new(vec![0, 2], vec![5, 1], false);
    assert_eq!(dequeue_first.poll(), Some(vec![0]));
    assert_eq!(queue_first.poll(), Some(vec![0]));
    assert_eq!(dequeue_first.poll(), Some(vec![0]));
    assert_eq!(queue_first.poll(), Some(vec![0]));
    assert_eq!(dequeue_first.poll(), Some(vec![0, 1]));
    assert_eq!(queue_first.poll(), Some(vec![0]));
}

#[test]
fn test_planner_buffers_and_reads() {
    let mut planner = SequencePlanner::new(vec![
        SourceInterval::new(2, 1, 2),
        SourceInterval::new(0, 0, 0),
        SourceInterval::new(2, 1, 2),
    ]);
    assert_eq!(planner.dependency_ids(), &vec![2, 0, 2]);
    // Source 0 buffers one sample, source 2 two; source 1 has no buffer.
    assert_eq!(planner.poll_plan(), (vec![0, 2], Some(vec![(0, 0)])));
    assert_eq!(planner.poll_plan(), (vec![2], Some(vec![(2, 0)])));
    assert_eq!(planner.poll_plan(), (vec![], Some(vec![(2, 1)])));
    assert_eq!(planner.current_sample_index(), 3);
    assert_eq!(planner.poll_plan(), (vec![], None));
    assert_eq!(planner.current_sample_index(), 3);
}

#[test]
fn test_source_interval_new() {
    let interval = SourceInterval::new(4, 10, 20);
    assert_eq!(interval, SourceInterval { source_id: 4, start_index: 10, end_index: 20 });
}
