use stateless_history_node::procfs::{
    cpu_sample, is_disk_device, parse_cpu_times, parse_disk_sample, parse_proc_status, split_lines, split_words,
    CpuSample, DiskSample, ProcMemSample,
};

fn chars(s: &str) -> Vec<char> {
    s.chars().collect()
}

fn texts(v: Vec<Vec<char>>) -> Vec<String> {
    v.into_iter().map(|c| c.into_iter().collect()).collect()
}

#[test]
fn words_split_on_any_white_space() {
    assert_eq!(texts(split_words(&chars("  VmRSS:\t 1234 kB  "))), vec!["VmRSS:", "1234", "kB"]);
    assert_eq!(texts(split_words(&chars("a\u{3000}b\u{a0}c"))), vec!["a", "b", "c"]);
    assert!(split_words(&chars(" \t\n")).is_empty());
}

#[test]
fn lines_split_like_str_lines() {
    assert_eq!(texts(split_lines(&chars("a\nb\r\nc"))), vec!["a", "b", "c"]);
    assert_eq!(texts(split_lines(&chars("a\n\nb\n"))), vec!["a", "", "b"]);
    assert!(split_lines(&chars("")).is_empty());
}

#[test]
fn memory_from_status() {
    let text = "Name:\tnode\nVmRSS:\t  2048 kB\nVmSwap:\t 16 kB\nRssAnon:\t 1024 kB\nThreads: 8\n";
    assert_eq!(
        parse_proc_status(text),
        Some(ProcMemSample { rss_kb: 2048, swap_kb: 16, rss_anon_kb: 1024, rss_file_kb: 0, rss_shmem_kb: 0 })
    );
    assert_eq!(parse_proc_status("Name: node\nThreads: 8\n"), None);
    assert_eq!(parse_proc_status("VmRSS: lots\n"), None);
    assert_eq!(
        parse_proc_status("VmRSS: 1 kB\nVmRSS: 5 kB\n"),
        Some(ProcMemSample { rss_kb: 5, swap_kb: 0, rss_anon_kb: 0, rss_file_kb: 0, rss_shmem_kb: 0 })
    );
}

#[test]
fn cpu_times_from_stat() {
    let text = "cpu  10 1 5 100 4 0 2 0 0 0\ncpu0 1 2 3 4 5 6 7 8\n";
    let values = parse_cpu_times(text).expect("cpu line");
    assert_eq!(values, vec![10, 1, 5, 100, 4, 0, 2, 0]);
    assert_eq!(cpu_sample(&values), CpuSample { total: 122, idle: 104, iowait: 4 });
    assert_eq!(parse_cpu_times("cpu0 1 2 3 4 5 6 7 8\n"), None);
    assert_eq!(parse_cpu_times("cpu  1 2 3\n"), None);
    assert_eq!(parse_cpu_times("cpu  1 2 3 x 5 6 7 8\n"), None);
    assert_eq!(parse_cpu_times(""), None);
}

#[test]
fn whole_disks_only() {
    assert!(is_disk_device("sda"));
    assert!(!is_disk_device("sda1"));
    assert!(is_disk_device("nvme0n1"));
    assert!(!is_disk_device("nvme0n1p1"));
    assert!(!is_disk_device("loop0"));
    assert!(!is_disk_device("ram1"));
    assert!(!is_disk_device("dm-0"));
    assert!(is_disk_device("md0"));
    assert!(is_disk_device("xvdb"));
    assert!(is_disk_device("mmcblk0"));
}

#[test]
fn sectors_from_diskstats() {
    let text = "   8       0 sda 100 0 2000 50 30 0 800 20 0 60 70\n\
                   8       1 sda1 90 0 1900 40 25 0 700 15 0 50 55\n\
                 259       0 nvme0n1 10 0 300 5 3 0 40 2 0 6 7\n\
                   7       0 loop0 1 0 8 0 0 0 0 0 0 0 0\n";
    assert_eq!(parse_disk_sample(text), Some(DiskSample { read_sectors: 2300, write_sectors: 840 }));
    assert_eq!(parse_disk_sample("   7 0 loop0 1 0 8 0 0 0 0 0 0 0 0\n"), None);
    assert_eq!(parse_disk_sample("8 0 sda 1 2\n"), None);
}
