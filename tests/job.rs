use scale::job::ActiveJob;
use scale::job::Node;

#[test]
fn node_from_one_address() {
    let n = Node::from_str("10.0.0.7");
    assert_eq!(n.main_ip, "10.0.0.7");
    assert_eq!(n.backplane_ip, "10.0.0.7");
}

#[test]
fn pad_ident_fills_to_size() {
    let mut job = ActiveJob::new("10.1.2.3".to_string());
    job.pad_ident(15);
    assert_eq!(job.ident_text(), "10.1.2.3       ");
}

#[test]
fn pad_ident_leaves_full_label() {
    let mut job = ActiveJob::new("192.168.100.200".to_string());
    job.pad_ident(15);
    assert_eq!(job.ident_text(), "192.168.100.200");
    let mut job = ActiveJob::new(String::new());
    job.pad_ident(3);
    assert_eq!(job.ident_text(), "   ");
}

#[test]
fn stamped_line_gets_label_after_stamp() {
    let mut job = ActiveJob::new("host1".to_string());
    let r = job.collate_line("2020-01-02 03:04:05.678901 started");
    assert_eq!(r, "2020-01-02 03:04:05.678901 host1 started");
}

#[test]
fn unstamped_line_takes_last_stamp() {
    let mut job = ActiveJob::new("host1".to_string());
    let r = job.collate_line("no stamp yet");
    assert_eq!(r, "0000-00-00 00:00:00.000000 host1 no stamp yet");
    job.collate_line("2020-01-02 03:04:05.678901 first");
    let r = job.collate_line("  continued");
    assert_eq!(r, "2020-01-02 03:04:05.678901 host1   continued");
}

#[test]
fn almost_stamped_line_is_not_stamped() {
    let mut job = ActiveJob::new("h".to_string());
    let r = job.collate_line("2020/01/02 03:04:05.678901 x");
    assert_eq!(r, "0000-00-00 00:00:00.000000 h 2020/01/02 03:04:05.678901 x");
    let r = job.collate_line("2020-01-02 03:04:05.67890");
    assert_eq!(r, "0000-00-00 00:00:00.000000 h 2020-01-02 03:04:05.67890");
}

#[test]
fn node_list_parses_each_line() {
    let nodes = scale::job::get_node_list("u1 10.0.0.1 192.168.0.1\nu2 10.0.0.2 192.168.0.2\r\nu3 10.0.0.3 192.168.0.3\n")
        .unwrap();
    assert_eq!(nodes.len(), 3);
    assert_eq!(nodes[0].backplane_ip, "10.0.0.1");
    assert_eq!(nodes[0].main_ip, "192.168.0.1");
    assert_eq!(nodes[1].main_ip, "192.168.0.2");
    assert_eq!(nodes[2].backplane_ip, "10.0.0.3");
}

#[test]
fn node_list_extra_fields_are_ignored() {
    let nodes = scale::job::get_node_list("u1 a b c d").unwrap();
    assert_eq!(nodes.len(), 1);
    assert_eq!(nodes[0].backplane_ip, "a");
    assert_eq!(nodes[0].main_ip, "b");
}

#[test]
fn node_list_short_line_is_refused() {
    assert!(scale::job::get_node_list("u1 a b\nu2 only").is_none());
    assert!(scale::job::get_node_list("").unwrap().is_empty());
}
