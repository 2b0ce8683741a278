use port_sniffer::partition::worker_ports;

#[test]
fn single_worker_covers_all_but_top() {
    let ports = worker_ports(0, 1);
    assert_eq!(ports.len(), 65534);
    assert_eq!(ports[0], 1);
    assert_eq!(ports[65533], 65534);
}

#[test]
fn stride_steps_by_count() {
    let ports = worker_ports(2, 4);
    assert_eq!(ports[0], 3);
    assert_eq!(ports[1], 7);
    assert_eq!(ports[2], 11);
    assert_eq!(*ports.last().unwrap(), 65531);
}

#[test]
fn four_workers_partition_exactly() {
    let mut seen = vec![0u32; 65536];
    for i in 0..4u16 {
        for p in worker_ports(i, 4) {
            seen[p as usize] += 1;
        }
    }
    for p in 1..=65534usize {
        assert_eq!(seen[p], 1, "port {} should be visited exactly once", p);
    }
    assert_eq!(seen[0], 0);
    assert_eq!(seen[65535], 0, "the top port is skipped by the boundary policy");
}

#[test]
fn hundred_workers_partition_exactly() {
    let mut seen = vec![0u32; 65536];
    for i in 0..100u16 {
        for p in worker_ports(i, 100) {
            seen[p as usize] += 1;
        }
    }
    for p in 1..=65534usize {
        assert_eq!(seen[p], 1);
    }
    assert_eq!(seen[0], 0);
    assert_eq!(seen[65535], 0);
}

#[test]
fn full_width_partition_reaches_top() {
    assert_eq!(worker_ports(0, 65535), vec![1]);
    assert_eq!(worker_ports(65534, 65535), vec![65535]);
}

#[test]
fn worker_ports_are_strictly_ascending() {
    for count in [1u16, 2, 3, 7, 100] {
        for i in 0..count.min(8) {
            let ports = worker_ports(i, count);
            for w in ports.windows(2) {
                assert!(w[0] < w[1]);
            }
        }
    }
}
