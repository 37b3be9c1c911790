use pool_api::sysinfo::{cpu_count, fd_soft_limit, meminfo_kb, memory_mb};

#[test]
fn processors_are_counted_at_least_one() {
    let cpuinfo = "processor\t: 0\nmodel name\t: x\n\nprocessor\t: 1\nmodel name\t: x\n";
    assert_eq!(cpu_count(cpuinfo), 2);
    assert_eq!(cpu_count("processor\t: 0\r\nprocessor\t: 1\r\nprocessor\t: 2"), 3);
    assert_eq!(cpu_count(""), 1);
    assert_eq!(cpu_count("model name: none\n"), 1);
}

#[test]
fn meminfo_figures_are_read_in_kb() {
    let meminfo = "MemTotal:       16333784 kB\nMemFree:         1200000 kB\nMemAvailable:    8166892 kB\nSwapTotal:             0 kB\n";
    assert_eq!(meminfo_kb(meminfo, "MemTotal:"), 16_333_784);
    assert_eq!(meminfo_kb(meminfo, "MemAvailable:"), 8_166_892);
    assert_eq!(meminfo_kb(meminfo, "SwapTotal:"), 0);
    assert_eq!(meminfo_kb(meminfo, "SwapFree:"), 0);
    assert_eq!(meminfo_kb("MemTotal: lots kB\n", "MemTotal:"), 0);
    assert_eq!(meminfo_kb("MemTotal:\n", "MemTotal:"), 0);
}

#[test]
fn open_files_soft_limit() {
    let limits = "Limit                     Soft Limit           Hard Limit           Units     \nMax cpu time              unlimited            unlimited            seconds   \nMax open files            1024                 524288               files     \n";
    assert_eq!(fd_soft_limit(limits), 1024);
    assert_eq!(fd_soft_limit("Max open files unlimited unlimited files\n"), 0);
    assert_eq!(fd_soft_limit(""), 0);
}

#[test]
fn memory_in_mb() {
    assert_eq!(memory_mb(16_333_784, 8_166_892, 2_097_148, 1_048_576), (15_950, 7_975, 2_047, 1_023));
    assert_eq!(memory_mb(1000, 5000, 0, 10), (0, 0, 0, 0));
}
