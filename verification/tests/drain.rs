use supertable::drain_run::drained_watermark;
use supertable::drain::{
    drain_batch_layout, drain_budget, drain_checkpoint_source, drain_epoch_bytes, drain_epoch_id,
    load_drain_remote_checkpoint, make_drain_batches, resume_drain, start_drain, CheckpointFault,
    DrainBatch, DrainConsolidate, DrainRemoteCheckpoint, DrainRemoteShard, PendingCheckpoint,
    ResumePlan, SourceFile, DRAIN_CHECKPOINT_SCHEMA, REPACK_CHECKPOINT_SCHEMA,
};

fn file(superfile_id: u128, birth_version: u64) -> SourceFile {
    SourceFile { superfile_id, uri: superfile_id, birth_version }
}

fn ids(batches: &[DrainBatch]) -> Vec<Vec<u128>> {
    batches.iter().map(|b| b.sources.iter().map(|s| s.superfile_id).collect()).collect()
}

fn text(id: u128) -> String {
    uuid::Uuid::from_u128(id).to_string()
}

#[test]
fn versions_stay_together_within_the_budget() {
    let files = vec![file(1, 5), file(2, 3), file(3, 5), file(4, 4), file(5, 9)];
    let batches = make_drain_batches(&files, 3);
    assert_eq!(ids(&batches), vec![vec![2, 4], vec![1, 3, 5]]);
    assert_eq!(drain_batch_layout(&batches), vec![vec![3, 4], vec![5, 9]]);
}

#[test]
fn a_version_over_the_budget_is_a_batch_of_its_own() {
    let files = vec![file(1, 1), file(2, 2), file(3, 2), file(4, 2), file(5, 3)];
    assert_eq!(ids(&make_drain_batches(&files, 2)), vec![vec![1], vec![2, 3, 4], vec![5]]);
    assert_eq!(ids(&make_drain_batches(&files, 0)), vec![vec![1], vec![2, 3, 4], vec![5]]);
    assert_eq!(ids(&make_drain_batches(&files, usize::MAX)), vec![vec![1, 2, 3, 4, 5]]);
    assert!(make_drain_batches(&vec![], 3).is_empty());
}

#[test]
fn an_epoch_hashes_all_that_identifies_a_drain() {
    let sources = vec![drain_checkpoint_source(&file(7, 3))];
    let layout = vec![vec![3u64]];
    let bytes = drain_epoch_bytes("opts", &sources, &layout, 2, DrainConsolidate::Kmeans);
    let mut expected: Vec<u8> = Vec::new();
    expected.extend_from_slice(&1u32.to_le_bytes());
    expected.extend_from_slice(&2u64.to_le_bytes());
    expected.extend_from_slice(b"opts");
    expected.extend_from_slice(b"kmeans");
    expected.extend_from_slice(text(7).as_bytes());
    expected.extend_from_slice(text(7).as_bytes());
    expected.extend_from_slice(&3u64.to_le_bytes());
    expected.extend_from_slice(&1u64.to_le_bytes());
    expected.extend_from_slice(&3u64.to_le_bytes());
    assert_eq!(bytes, expected);
    let id = drain_epoch_id("opts", &sources, &layout, 2, DrainConsolidate::Kmeans);
    assert_eq!(id, blake3::hash(&expected).to_hex().to_string());
    assert_ne!(id, drain_epoch_id("opts", &sources, &layout, 2, DrainConsolidate::Splice));
    assert_ne!(id, drain_epoch_id("opts", &sources, &layout, 3, DrainConsolidate::Kmeans));
    assert_ne!(id, drain_epoch_id("other", &sources, &layout, 2, DrainConsolidate::Kmeans));
}

fn checkpoint_of(shards: Vec<u128>) -> DrainRemoteCheckpoint {
    DrainRemoteCheckpoint {
        schema: DRAIN_CHECKPOINT_SCHEMA,
        epoch_id: "epoch".to_string(),
        options_hash: "opts".to_string(),
        sources: Vec::new(),
        batch_layout: Vec::new(),
        shard_count: 4,
        completed_shards: shards
            .into_iter()
            .map(|id| DrainRemoteShard {
                shard_id: id as u32,
                superfile_id: text(id),
                cell_counts: Vec::new(),
            })
            .collect(),
    }
}

fn pending(checkpoint: DrainRemoteCheckpoint, entry_ids: Vec<u128>) -> Option<PendingCheckpoint> {
    Some(PendingCheckpoint {
        schema_tag: Some(checkpoint.schema),
        decoded: Ok(checkpoint),
        entry_ids,
    })
}

#[test]
fn a_remote_checkpoint_is_taken_up_when_its_shards_are_there() {
    let loaded = load_drain_remote_checkpoint(pending(checkpoint_of(vec![1, 2]), vec![2, 1]));
    assert_eq!(loaded.expect("load").expect("checkpoint").completed_shards.len(), 2);
    assert!(load_drain_remote_checkpoint(None).expect("load").is_none());
}

#[test]
fn a_repack_pin_is_passed_over() {
    let pin = PendingCheckpoint {
        schema_tag: Some(REPACK_CHECKPOINT_SCHEMA),
        decoded: Err("no such fields".to_string()),
        entry_ids: vec![1],
    };
    assert!(load_drain_remote_checkpoint(Some(pin)).expect("load").is_none());
}

#[test]
fn a_remote_checkpoint_that_does_not_fit_is_refused() {
    let undecodable = PendingCheckpoint {
        schema_tag: None,
        decoded: Err("eof".to_string()),
        entry_ids: Vec::new(),
    };
    match load_drain_remote_checkpoint(Some(undecodable)) {
        Err(CheckpointFault::Decode(e)) => assert_eq!(e, "eof"),
        other => panic!("unexpected {other:?}"),
    }
    let mut newer = checkpoint_of(vec![]);
    newer.schema = 2;
    assert!(matches!(
        load_drain_remote_checkpoint(pending(newer, vec![])),
        Err(CheckpointFault::Schema { schema: 2 })
    ));
    assert!(matches!(
        load_drain_remote_checkpoint(pending(checkpoint_of(vec![1]), vec![1, 2])),
        Err(CheckpointFault::EntryCount { entries: 2, shards: 1 })
    ));
    assert!(matches!(
        load_drain_remote_checkpoint(pending(checkpoint_of(vec![1]), vec![2])),
        Err(CheckpointFault::MissingEntry)
    ));
}

fn started(files: &Vec<SourceFile>) -> (Vec<DrainBatch>, DrainRemoteCheckpoint) {
    start_drain(files, &vec![(1, 2)], &"opts".to_string(), 4, 2, DrainConsolidate::Kmeans)
        .expect("something to drain")
}

fn resumed(
    checkpoint: &DrainRemoteCheckpoint,
    files: &Vec<SourceFile>,
    drained: &Vec<(u64, u64)>,
) -> Result<ResumePlan, CheckpointFault> {
    resume_drain(checkpoint, files, drained, &"opts".to_string(), 4, 2, DrainConsolidate::Kmeans)
}

fn table() -> Vec<SourceFile> {
    vec![file(9, 4), file(1, 1), file(3, 3), file(2, 3), file(8, 4)]
}

#[test]
fn a_new_drain_takes_what_is_not_drained_yet() {
    let files = table();
    let (batches, checkpoint) = started(&files);
    assert_eq!(ids(&batches), vec![vec![2, 3], vec![8, 9]]);
    assert_eq!(checkpoint.batch_layout, vec![vec![3], vec![4]]);
    assert_eq!(checkpoint.schema, DRAIN_CHECKPOINT_SCHEMA);
    assert_eq!(checkpoint.shard_count, 4);
    assert!(checkpoint.completed_shards.is_empty());
    let names: Vec<String> = checkpoint.sources.iter().map(|s| s.superfile_id.clone()).collect();
    assert_eq!(names, vec![text(2), text(3), text(8), text(9)]);
    let none = start_drain(&files, &vec![(0, 9)], &"opts".to_string(), 4, 2, DrainConsolidate::Kmeans);
    assert!(none.is_none());
}

#[test]
fn a_started_drain_is_taken_up_with_the_same_batches() {
    let files = table();
    let (batches, checkpoint) = started(&files);
    match resumed(&checkpoint, &files, &vec![(1, 2)]) {
        Ok(ResumePlan::Batches(again)) => {
            assert_eq!(ids(&again), ids(&batches));
            assert_eq!(drain_batch_layout(&again), drain_batch_layout(&batches));
        }
        other => panic!("unexpected {other:?}"),
    }
}

#[test]
fn a_committed_drain_is_only_cleaned_up() {
    let files = table();
    let (_, checkpoint) = started(&files);
    assert!(matches!(
        resumed(&checkpoint, &files, &vec![(1, 4)]),
        Ok(ResumePlan::AlreadyDrained)
    ));
    assert!(matches!(
        resumed(&checkpoint, &files, &vec![(1, 3)]),
        Err(CheckpointFault::PartiallyCommitted)
    ));
}

#[test]
fn a_drain_over_a_changed_table_is_refused() {
    let files = table();
    let (_, checkpoint) = started(&files);
    let drained = vec![(1u64, 2u64)];
    let fewer: Vec<SourceFile> = files.iter().copied().filter(|f| f.superfile_id != 3).collect();
    assert!(matches!(
        resumed(&checkpoint, &fewer, &drained),
        Err(CheckpointFault::SourceMissing { index: 1 })
    ));
    let mut moved = files.clone();
    moved[0].uri = 77;
    assert!(matches!(
        resumed(&checkpoint, &moved, &drained),
        Err(CheckpointFault::SourceChanged { index: 3 })
    ));
    let opts = "opts".to_string();
    assert!(matches!(
        resume_drain(&checkpoint, &files, &drained, &opts, 5, 2, DrainConsolidate::Kmeans),
        Err(CheckpointFault::ShardCount { checkpoint: 4 })
    ));
    let other = "other".to_string();
    assert!(matches!(
        resume_drain(&checkpoint, &files, &drained, &other, 4, 2, DrainConsolidate::Kmeans),
        Err(CheckpointFault::OptionsHash)
    ));
    assert!(matches!(
        resume_drain(&checkpoint, &files, &drained, &opts, 4, 9, DrainConsolidate::Kmeans),
        Err(CheckpointFault::BatchLayout)
    ));
    assert!(matches!(
        resume_drain(&checkpoint, &files, &drained, &opts, 4, 2, DrainConsolidate::Splice),
        Err(CheckpointFault::EpochHash)
    ));
}

#[test]
fn the_batch_size_follows_the_configuration() {
    assert_eq!(drain_budget(0), None);
    assert_eq!(drain_budget(-1), Some(usize::MAX));
    assert_eq!(drain_budget(12), Some(12));
}

#[test]
fn a_second_drain_finds_nothing() {
    let files = vec![file(1, 3), file(2, 5), file(3, 9)];
    let mut drained = vec![(0, 2), (5, 5)];
    let options = "opts".to_string();
    let (batches, _) = start_drain(&files, &drained, &options, 4, 2, DrainConsolidate::Kmeans)
        .expect("two files are left");
    let range = drained_watermark(Some(2), &batches);
    assert_eq!(range, (3, 9));
    drained.push(range);
    assert!(start_drain(&files, &drained, &options, 4, 2, DrainConsolidate::Kmeans).is_none());
}
