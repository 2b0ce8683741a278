use port_sniffer::collect::sort_ports;

#[test]
fn sorts_ascending() {
    let mut v: Vec<u16> = vec![443, 22, 8080, 80];
    sort_ports(&mut v);
    assert_eq!(v, vec![22, 80, 443, 8080]);
}

#[test]
fn sort_is_idempotent() {
    let mut v: Vec<u16> = vec![5, 1, 3];
    sort_ports(&mut v);
    let once = v.clone();
    sort_ports(&mut v);
    assert_eq!(v, once);
}

#[test]
fn sort_result_independent_of_arrival_order() {
    let mut first: Vec<u16> = vec![80, 22, 443];
    let mut second: Vec<u16> = vec![443, 80, 22];
    sort_ports(&mut first);
    sort_ports(&mut second);
    assert_eq!(first, second);
    assert_eq!(first, vec![22, 80, 443]);
}

#[test]
fn sort_keeps_duplicates() {
    let mut v: Vec<u16> = vec![2, 1, 2];
    sort_ports(&mut v);
    assert_eq!(v, vec![1, 2, 2]);
}

#[test]
fn sort_handles_empty_and_single() {
    let mut empty: Vec<u16> = vec![];
    sort_ports(&mut empty);
    assert!(empty.is_empty());

    let mut one: Vec<u16> = vec![7];
    sort_ports(&mut one);
    assert_eq!(one, vec![7]);
}
