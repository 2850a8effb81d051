use pitop::sample::{kib_milli, ratio, whole_gib, NvidiaBundle, UtilBundle, GIB, MILLI};

#[test]
fn check_init() {
    let result = UtilBundle::new();
    assert!(result.cpu_usage.is_empty());
}

#[test]
fn new_sample_is_all_zero() {
    let s = UtilBundle::new();
    assert_eq!(s.cpu_temp, 0);
    assert_eq!(s.gpu_power, 0);
    assert_eq!(s.gpu_power_limit, 0);
    assert_eq!(s.mem_used, 0);
    assert_eq!(s.mem_total, 0);
    assert_eq!(s.disk_used, 0);
    assert_eq!(s.disk_total, 0);
    assert_eq!(s.data_tx, 0);
    assert_eq!(s.data_rx, 0);
}

#[test]
fn idle_sample_reports_zero_per_core() {
    let s = UtilBundle::idle(3);
    assert_eq!(s.cpu_usage, vec![0, 0, 0]);
    assert_eq!(s.data_tx, 0);
    assert_eq!(s.mem_total, 0);
}

#[test]
fn ratio_is_a_fraction_in_thousandths() {
    assert_eq!(ratio(150_000, 300_000), 500);
    assert_eq!(ratio(1, 3), 333);
    assert_eq!(ratio(0, 250_000), 0);
}

#[test]
fn ratio_clamps_when_part_exceeds_whole() {
    assert_eq!(ratio(400_000, 300_000), MILLI);
    assert_eq!(ratio(300_000, 300_000), MILLI);
    assert_eq!(ratio(u64::MAX, 1), MILLI);
}

#[test]
fn ratio_with_unknown_total_is_zero() {
    assert_eq!(ratio(123_456, 0), 0);
    assert_eq!(ratio(0, 0), 0);
    assert_eq!(ratio(u64::MAX, 0), 0);
}

#[test]
fn ratio_never_overflows_on_large_values() {
    assert_eq!(ratio(u64::MAX - 1, u64::MAX), 999);
    assert_eq!(ratio(u64::MAX / 2, u64::MAX), 499);
}

#[test]
fn kib_conversion_in_thousandths() {
    assert_eq!(kib_milli(0), 0);
    assert_eq!(kib_milli(1024), 1000);
    assert_eq!(kib_milli(1536), 1500);
    assert_eq!(kib_milli(1), 0);
    assert_eq!(kib_milli(2), 1);
    assert_eq!(kib_milli(u64::MAX), 18_014_398_509_481_983_999);
}

#[test]
fn whole_gib_rounds_down() {
    assert_eq!(whole_gib(0), 0);
    assert_eq!(whole_gib(GIB - 1), 0);
    assert_eq!(whole_gib(3 * GIB + 5), 3);
}

#[test]
fn readings_are_summed() {
    let disks = vec![(1000, 400), (500, 500), (300, 0)];
    let networks = vec![(10, 20), (30, 40)];
    let gpu = NvidiaBundle { gpu_power_draw: 45_500, gpu_power_limit: 250_000 };
    let s = UtilBundle::from_readings(vec![12_000, 99_500], 41_250, Some(gpu), 4, 8, &disks, &networks);
    assert_eq!(s.cpu_usage, vec![12_000, 99_500]);
    assert_eq!(s.cpu_temp, 41_250);
    assert_eq!(s.gpu_power, 45_500);
    assert_eq!(s.gpu_power_limit, 250_000);
    assert_eq!(s.mem_used, 4);
    assert_eq!(s.mem_total, 8);
    assert_eq!(s.disk_used, 900);
    assert_eq!(s.disk_total, 1800);
    assert_eq!(s.data_tx, 40);
    assert_eq!(s.data_rx, 60);
}

#[test]
fn readings_without_gpu_give_zero_power() {
    let s = UtilBundle::from_readings(vec![], 0, None, 0, 0, &vec![], &vec![]);
    assert_eq!(s.gpu_power, 0);
    assert_eq!(s.gpu_power_limit, 0);
    assert_eq!(s.disk_total, 0);
    assert_eq!(s.data_rx, 0);
}

#[test]
fn readings_saturate_instead_of_overflowing() {
    let disks = vec![(u64::MAX, 0), (5, 10)];
    let networks = vec![(u64::MAX, 1), (1, 2)];
    let s = UtilBundle::from_readings(vec![], 0, None, 0, 0, &disks, &networks);
    assert_eq!(s.disk_used, u64::MAX);
    assert_eq!(s.disk_total, u64::MAX);
    assert_eq!(s.data_tx, u64::MAX);
    assert_eq!(s.data_rx, 3);
}
