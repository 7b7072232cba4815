use precc_pipeline::link_plan::{
    link_arguments, plan_link, resolve_linker, threads_per_link, LinkMode, LinkRun, LinkStep, LinkerChoice,
    LinkerType, ObjectRef,
};
use precc_pipeline::partition::{batch_count, split_batches};

fn inputs(n: usize) -> Vec<ObjectRef> {
    (0..n).map(ObjectRef::Input).collect()
}

#[test]
fn ten_objects_four_jobs_make_three_batches() {
    let items: Vec<usize> = (0..10).collect();
    let batches = split_batches(&items, 4);
    let sizes: Vec<usize> = batches.iter().map(|b| b.len()).collect();
    assert_eq!(sizes, vec![3, 3, 4]);
    let joined: Vec<usize> = batches.concat();
    assert_eq!(joined, items);
}

#[test]
fn batch_count_rounds_up() {
    assert_eq!(batch_count(10, 4), 3);
    assert_eq!(batch_count(8, 4), 2);
    assert_eq!(batch_count(0, 4), 0);
    assert_eq!(batch_count(1, 1), 1);
    assert_eq!(batch_count(7, 1), 7);
    assert_eq!(batch_count(usize::MAX, 2), usize::MAX / 2 + 1);
}

#[test]
fn partition_covers_every_input_once() {
    for n in 0..40usize {
        for j in 1..12usize {
            let items: Vec<usize> = (0..n).collect();
            let batches = split_batches(&items, j);
            assert_eq!(batches.len(), (n + j - 1) / j);
            assert!(batches.iter().all(|b| !b.is_empty()));
            let joined: Vec<usize> = batches.concat();
            assert_eq!(joined, items);
            let min = batches.iter().map(|b| b.len()).min().unwrap_or(0);
            let max = batches.iter().map(|b| b.len()).max().unwrap_or(0);
            assert!(max - min <= 1);
        }
    }
}

#[test]
fn empty_input_gives_no_batches() {
    let items: Vec<u8> = Vec::new();
    assert!(split_batches(&items, 3).is_empty());
}

#[test]
fn ten_objects_four_jobs_plan_one_level_then_final_link() {
    let plan = plan_link(10, 4, LinkerType::Ld, LinkMode::Parallel);
    assert_eq!(plan.levels.len(), 1);
    let sizes: Vec<usize> = plan.levels[0].iter().map(|b| b.len()).collect();
    assert_eq!(sizes, vec![3, 3, 4]);
    assert_eq!(plan.levels[0][0], inputs(3));
    assert_eq!(plan.levels[0][2], vec![ObjectRef::Input(6), ObjectRef::Input(7), ObjectRef::Input(8), ObjectRef::Input(9)]);
    assert_eq!(
        plan.final_inputs,
        vec![
            ObjectRef::Intermediate { level: 0, batch: 0 },
            ObjectRef::Intermediate { level: 0, batch: 1 },
            ObjectRef::Intermediate { level: 0, batch: 2 },
        ]
    );
    assert!(plan.final_inputs.len() <= 4);
    assert_eq!(plan.threads, None);
}

#[test]
fn small_input_links_directly() {
    let plan = plan_link(8, 4, LinkerType::Mold, LinkMode::Parallel);
    assert!(plan.levels.is_empty());
    assert_eq!(plan.final_inputs, inputs(8));
    assert_eq!(plan.threads, None);
}

#[test]
fn sequential_mode_links_directly() {
    let plan = plan_link(100, 4, LinkerType::Mold, LinkMode::Sequential);
    assert!(plan.levels.is_empty());
    assert_eq!(plan.final_inputs, inputs(100));
    assert_eq!(plan.threads, None);
}

#[test]
fn single_job_links_directly() {
    let plan = plan_link(50, 1, LinkerType::Ld, LinkMode::Parallel);
    assert!(plan.levels.is_empty());
    assert_eq!(plan.final_inputs, inputs(50));
}

#[test]
fn large_input_reduces_in_several_levels() {
    let plan = plan_link(2503, 48, LinkerType::Mold, LinkMode::Parallel);
    let counts: Vec<usize> = plan.levels.iter().map(|l| l.len()).collect();
    assert_eq!(counts, vec![53, 2]);
    assert_eq!(plan.final_inputs.len(), 2);
    assert_eq!(plan.threads, Some(6));
    // each level reads exactly the outputs of the level before it
    let level1: Vec<ObjectRef> = plan.levels[1].concat();
    let expected: Vec<ObjectRef> = (0..53).map(|b| ObjectRef::Intermediate { level: 0, batch: b }).collect();
    assert_eq!(level1, expected);
    let level0: Vec<ObjectRef> = plan.levels[0].concat();
    assert_eq!(level0, inputs(2503));
}

#[test]
fn planning_twice_gives_the_same_plan() {
    let a = plan_link(777, 5, LinkerType::Ld, LinkMode::Parallel);
    let b = plan_link(777, 5, LinkerType::Ld, LinkMode::Parallel);
    assert_eq!(a.levels, b.levels);
    assert_eq!(a.final_inputs, b.final_inputs);
    assert_eq!(a.threads, b.threads);
}

#[test]
fn fast_linker_thread_budget() {
    assert_eq!(threads_per_link(LinkerType::Mold, 48), Some(6));
    assert_eq!(threads_per_link(LinkerType::Mold, 4), Some(1));
    assert_eq!(threads_per_link(LinkerType::Mold, 1), None);
    assert_eq!(threads_per_link(LinkerType::Ld, 48), None);
}

#[test]
fn missing_fast_linker_falls_back() {
    assert_eq!(resolve_linker(LinkerType::Mold, false), LinkerChoice { linker: LinkerType::Ld, substituted: true });
    assert_eq!(resolve_linker(LinkerType::Mold, true), LinkerChoice { linker: LinkerType::Mold, substituted: false });
    assert_eq!(resolve_linker(LinkerType::Ld, false), LinkerChoice { linker: LinkerType::Ld, substituted: false });
}

#[test]
fn backend_and_mode_names() {
    assert_eq!(LinkerType::Ld.name(), "ld");
    assert_eq!(LinkerType::Mold.name(), "mold");
    assert_eq!(LinkMode::Sequential.name(), "sequential");
    assert_eq!(LinkMode::Parallel.name(), "parallel");
}

#[test]
fn link_arguments_for_fast_linker_with_threads() {
    let objs = vec!["a.o".to_string(), "b.o".to_string()];
    let args = link_arguments(LinkerType::Mold, Some(12), "out.o", &objs);
    assert_eq!(args, vec!["-r", "--allow-multiple-definition", "--threads=12", "-o", "out.o", "a.o", "b.o"]);
}

#[test]
fn link_arguments_for_conventional_linker() {
    let objs = vec!["x.o".to_string()];
    let args = link_arguments(LinkerType::Ld, Some(3), "y.o", &objs);
    assert_eq!(args, vec!["-r", "--allow-multiple-definition", "-o", "y.o", "x.o"]);
    let args = link_arguments(LinkerType::Mold, None, "y.o", &objs);
    assert_eq!(args, vec!["-r", "--allow-multiple-definition", "-o", "y.o", "x.o"]);
}

#[test]
fn failed_batch_fails_the_whole_link() {
    let plan = plan_link(10, 4, LinkerType::Ld, LinkMode::Parallel);
    let mut run = LinkRun::new(&plan);
    assert_eq!(run.step(), LinkStep::RunLevel(0));
    run.level_finished(2);
    assert_eq!(run.step(), LinkStep::Failed);
}

#[test]
fn successful_levels_lead_to_final_link() {
    let plan = plan_link(2503, 48, LinkerType::Ld, LinkMode::Parallel);
    let mut run = LinkRun::new(&plan);
    assert_eq!(run.step(), LinkStep::RunLevel(0));
    run.level_finished(53);
    assert_eq!(run.step(), LinkStep::RunLevel(1));
    run.level_finished(2);
    assert_eq!(run.step(), LinkStep::RunFinal);
    run.final_finished(true);
    assert_eq!(run.step(), LinkStep::Succeeded);
}

#[test]
fn direct_link_failure_is_reported() {
    let plan = plan_link(3, 4, LinkerType::Ld, LinkMode::Parallel);
    let mut run = LinkRun::new(&plan);
    assert_eq!(run.step(), LinkStep::RunFinal);
    run.final_finished(false);
    assert_eq!(run.step(), LinkStep::Failed);
}
