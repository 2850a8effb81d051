use pitop::sample::{UtilBundle, MILLI};
use pitop::series::Series;
use pitop::window::{App, MAX_UTIL_WINDOW_N};

fn sample(cores: usize, usage: u64) -> UtilBundle {
    let mut s = UtilBundle::new();
    s.cpu_usage = vec![usage; cores];
    s
}

fn values(s: &Series) -> Vec<u64> {
    s.points().iter().map(|p| p.1).collect()
}

fn ages(s: &Series) -> Vec<u64> {
    s.points().iter().map(|p| p.0).collect()
}

#[test]
fn series_evicts_oldest_past_capacity() {
    let mut s = Series::new(3);
    for v in 1..=5 {
        s.push(v);
    }
    assert_eq!(values(&s), vec![3, 4, 5]);
    assert_eq!(ages(&s), vec![2, 1, 0]);
    assert_eq!(s.latest(), 5);
}

#[test]
fn series_of_zero_capacity_stays_empty() {
    let mut s = Series::new(0);
    s.push(7);
    assert_eq!(s.len(), 0);
    assert_eq!(s.latest(), 0);
}

#[test]
fn new_store_is_empty() {
    let app = App::new();
    assert_eq!(app.window(), MAX_UTIL_WINDOW_N);
    assert!(app.cpu_util().is_empty());
    assert_eq!(app.network_tx().len(), 0);
    assert_eq!(app.gpu_power_limit(), 0);
    assert_eq!(app.mem_total_bytes(), 0);
}

#[test]
fn window_bound_holds_after_many_merges() {
    let mut app = App::new();
    for i in 0..200u64 {
        app.on_tick(sample((i % 5) as usize, i));
        for core in app.cpu_util() {
            assert!(core.len() <= MAX_UTIL_WINDOW_N);
        }
        assert!(app.network_tx().len() <= MAX_UTIL_WINDOW_N);
        assert!(app.network_rx().len() <= MAX_UTIL_WINDOW_N);
        assert!(app.gpu_power_ratio().len() <= MAX_UTIL_WINDOW_N);
        assert!(app.mem_util().len() <= MAX_UTIL_WINDOW_N);
    }
    assert_eq!(app.network_tx().len(), MAX_UTIL_WINDOW_N);
}

#[test]
fn ages_decrease_to_zero_after_merges() {
    let mut app = App::with_window(4);
    for i in 0..6u64 {
        app.on_tick(sample(1, i));
    }
    assert_eq!(ages(app.network_rx()), vec![3, 2, 1, 0]);
    assert_eq!(ages(&app.cpu_util()[0]), vec![3, 2, 1, 0]);
    assert_eq!(values(&app.cpu_util()[0]), vec![2, 3, 4, 5]);
}

#[test]
fn merge_converts_every_field() {
    let mut app = App::new();
    let mut s = sample(2, 50_000);
    s.data_tx = 2048;
    s.data_rx = 512;
    s.gpu_power = 100_000;
    s.gpu_power_limit = 400_000;
    s.mem_used = 3;
    s.mem_total = 4;
    app.on_tick(s);
    assert_eq!(values(app.network_tx()), vec![2000]);
    assert_eq!(values(app.network_rx()), vec![500]);
    assert_eq!(values(app.gpu_power_ratio()), vec![250]);
    assert_eq!(values(app.mem_util()), vec![750]);
    assert_eq!(app.gpu_power_limit(), 400_000);
    assert_eq!(app.mem_total_bytes(), 4);
    assert_eq!(values(&app.cpu_util()[1]), vec![50_000]);
}

#[test]
fn ratios_stay_within_bounds_on_inconsistent_input() {
    let mut app = App::new();
    let mut s = UtilBundle::new();
    s.gpu_power = 500_000;
    s.gpu_power_limit = 250_000;
    s.mem_used = 9;
    s.mem_total = 8;
    app.on_tick(s);
    let mut s = UtilBundle::new();
    s.gpu_power = 500_000;
    s.mem_used = 9;
    app.on_tick(s);
    assert_eq!(values(app.gpu_power_ratio()), vec![MILLI, 0]);
    assert_eq!(values(app.mem_util()), vec![MILLI, 0]);
}

#[test]
fn starvation_advances_every_series_with_zeros() {
    let mut app = App::new();
    let mut s = sample(2, 70_000);
    s.data_tx = 1024;
    s.mem_used = 1;
    s.mem_total = 2;
    app.tick(Some(s));
    app.tick(None);
    assert_eq!(app.cpu_util().len(), 2);
    for core in app.cpu_util() {
        assert_eq!(values(core), vec![70_000, 0]);
        assert_eq!(ages(core), vec![1, 0]);
    }
    assert_eq!(values(app.network_tx()), vec![1000, 0]);
    assert_eq!(values(app.network_rx()), vec![0, 0]);
    assert_eq!(values(app.mem_util()), vec![500, 0]);
    assert_eq!(values(app.gpu_power_ratio()), vec![0, 0]);
    assert_eq!(app.mem_total_bytes(), 0);
}

#[test]
fn core_growth_without_backfill() {
    let mut app = App::new();
    app.on_tick(sample(4, 10_000));
    app.on_tick(sample(8, 20_000));
    assert_eq!(app.cpu_util().len(), 8);
    for i in 0..4 {
        assert_eq!(app.cpu_util()[i].len(), 2);
    }
    for i in 4..8 {
        assert_eq!(app.cpu_util()[i].len(), 1);
    }
}

#[test]
fn cores_never_shrink() {
    let mut app = App::new();
    app.on_tick(sample(3, 1));
    app.on_tick(sample(1, 2));
    assert_eq!(app.cpu_util().len(), 3);
    assert_eq!(values(&app.cpu_util()[0]), vec![1, 2]);
    assert_eq!(values(&app.cpu_util()[2]), vec![1]);
    assert_eq!(ages(&app.cpu_util()[2]), vec![0]);
}
