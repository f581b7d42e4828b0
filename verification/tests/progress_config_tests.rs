use pocket_huim::config::MemoryBudget;
use pocket_huim::progress::{MiningProgress, item_list_text};

#[test]
fn memory_budget_units() {
    assert_eq!(MemoryBudget::mb(3).bytes, 3 * 1024 * 1024);
    assert_eq!(MemoryBudget::gb(2).bytes, 2 * 1024 * 1024 * 1024);
}

#[test]
fn progress_stage_and_prefix() {
    let mut p = MiningProgress::new();
    assert_eq!(p.stage, "Initializing");
    assert_eq!(p.active_prefix, "[]");
    p.set_stage("Pass 1");
    assert_eq!(p.stage, "Pass 1");
    p.set_active_prefix(&[3, 10, 0]);
    assert_eq!(p.active_prefix, "[3, 10, 0]");
    assert_eq!(item_list_text(&[]), "[]");
    assert_eq!(item_list_text(&[4294967295]), "[4294967295]");
}

#[test]
fn experiment_config_defaults() {
    let c = pocket_huim::config::ExperimentConfig::default();
    assert_eq!(c.budget.bytes, 1 << 30);
    assert_eq!(c.min_utility, 1000);
    assert_eq!(c.page_size_bytes, 64 * 1024);
    assert_eq!(c.chunk_store_root, "chunks");
    assert_eq!(c.output_path, "output.txt");
}
