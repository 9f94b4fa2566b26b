use iperf3d::table::{ClientIp, Instance, PortTable};

fn ip(n: u128) -> ClientIp {
    ClientIp { bits: n }
}

fn mk_table(cap: u8, start: u16, end: u16) -> PortTable {
    PortTable::new(
        cap,
        start,
        end,
        String::from("iperf3"),
        vec![],
        String::from("[::]"),
    )
    .expect("range must be valid")
}

#[test]
fn construction_rejects_inverted_range() {
    let r = PortTable::new(
        4,
        7000,
        6999,
        String::from("iperf3"),
        vec![],
        String::from("[::]"),
    );
    assert!(r.is_err());
}

#[test]
fn construction_accepts_single_port_range() {
    let t = mk_table(4, 7000, 7000);
    assert_eq!(t.start_port, 7000);
    assert_eq!(t.end_port, 7000);
    assert_eq!(t.instances.len(), 0);
}

#[test]
fn allocation_walks_range_in_order() {
    let mut t = mk_table(200, 7000, 7002);
    for expected in 7000..=7002u16 {
        let p = t.try_allocate(ip(1)).expect("port must be free");
        assert_eq!(p, expected);
        assert!(t.register_instance(p, ip(1), 0));
    }
    assert_eq!(
        t.try_allocate(ip(1)),
        Err(iperf3d::table::AllocError::Exhausted)
    );
}

#[test]
fn registering_occupied_port_fails() {
    let mut t = mk_table(4, 7000, 7010);
    assert!(t.register_instance(7003, ip(1), 0));
    assert!(!t.register_instance(7003, ip(2), 1));
    assert_eq!(t.instances.len(), 1);
}

#[test]
fn registering_out_of_range_port_fails() {
    let mut t = mk_table(4, 7000, 7010);
    assert!(!t.register_instance(6999, ip(1), 0));
    assert!(!t.register_instance(7011, ip(1), 0));
    assert_eq!(t.instances.len(), 0);
}

#[test]
fn released_low_port_is_rediscovered() {
    let mut t = mk_table(200, 7000, 7010);
    for p in 7000..=7003u16 {
        assert!(t.register_instance(p, ip(1), 0));
    }
    // The process on 7001 exits; the next sweep releases the port.
    let to_kill = t.cleanup(1, 600, &vec![7001]);
    assert!(to_kill.is_empty());
    assert_eq!(t.try_allocate(ip(9)), Ok(7001));
    assert!(t.register_instance(7001, ip(9), 1));
    // With the hole filled again, allocation resumes at the high end.
    assert_eq!(t.try_allocate(ip(9)), Ok(7004));
}

#[test]
fn released_start_port_is_handed_out_first() {
    let mut t = mk_table(200, 7000, 7010);
    for p in 7000..=7002u16 {
        assert!(t.register_instance(p, ip(1), 0));
    }
    let _ = t.cleanup(1, 600, &vec![7000]);
    assert_eq!(t.try_allocate(ip(1)), Ok(7000));
}

#[test]
fn zero_max_age_sweep_clears_everything() {
    let mut t = mk_table(200, 7000, 7010);
    for p in 7000..=7004u16 {
        assert!(t.register_instance(p, ip(u128::from(p)), 0));
    }
    let mut to_kill = t.cleanup(0, 0, &vec![]);
    to_kill.sort();
    assert_eq!(to_kill, vec![7000, 7001, 7002, 7003, 7004]);
    assert_eq!(t.instances.len(), 0);
}

#[test]
fn overdue_instance_is_killed_and_released() {
    let mut t = mk_table(4, 7000, 7010);
    assert!(t.register_instance(7000, ip(1), 0));
    assert!(t.register_instance(7001, ip(1), 90));
    // At time 100 with a 60-second cap, only the first is overdue.
    let to_kill = t.cleanup(100, 60, &vec![]);
    assert_eq!(to_kill, vec![7000]);
    assert_eq!(t.instances.len(), 1);
    assert_eq!(t.instances[0].port, 7001);
}

#[test]
fn overdue_instance_without_process_is_released_not_killed() {
    let mut t = mk_table(4, 7000, 7010);
    t.instances.push(Instance {
        port: 7000,
        spawn_time: 0,
        owner: ip(1),
        has_process: false,
    });
    let to_kill = t.cleanup(100, 60, &vec![]);
    assert!(to_kill.is_empty());
    assert_eq!(t.instances.len(), 0);
}

#[test]
fn exited_young_instance_is_released_on_next_sweep() {
    let mut t = mk_table(4, 7000, 7010);
    assert!(t.register_instance(7000, ip(1), 0));
    assert!(t.register_instance(7001, ip(1), 0));
    // Age 5 is far below the cap, but 7000's process has exited.
    let to_kill = t.cleanup(5, 600, &vec![7000]);
    assert!(to_kill.is_empty());
    assert_eq!(t.instances.len(), 1);
    assert_eq!(t.instances[0].port, 7001);
}

#[test]
fn young_instance_still_running_is_kept() {
    let mut t = mk_table(4, 7000, 7010);
    assert!(t.register_instance(7000, ip(1), 0));
    let to_kill = t.cleanup(5, 600, &vec![]);
    assert!(to_kill.is_empty());
    assert_eq!(t.instances.len(), 1);
}

#[test]
fn per_ip_cap_denies_then_release_decrements() {
    let mut t = mk_table(2, 7000, 7010);
    let a = ip(0xa);
    let b = ip(0xb);
    let p0 = t.try_allocate(a).unwrap();
    assert!(t.register_instance(p0, a, 0));
    let p1 = t.try_allocate(a).unwrap();
    assert!(t.register_instance(p1, a, 0));
    // The third request from the same client is denied...
    assert_eq!(t.try_allocate(a), Err(iperf3d::table::AllocError::Denied));
    assert_eq!(t.instances.len(), 2);
    // ...while another client is still admitted.
    assert_eq!(t.try_allocate(b), Ok(7002));
    // Releasing one of the client's instances frees a slot.
    let _ = t.cleanup(1, 600, &vec![p0]);
    assert_eq!(t.try_allocate(a), Ok(p0));
}

#[test]
fn count_by_ip_counts_only_that_ip() {
    let mut t = mk_table(200, 7000, 7010);
    assert!(t.register_instance(7000, ip(1), 0));
    assert!(t.register_instance(7001, ip(2), 0));
    assert!(t.register_instance(7002, ip(1), 0));
    assert_eq!(t.get_instance_count_by_ip(ip(1)), 2);
    assert_eq!(t.get_instance_count_by_ip(ip(2)), 1);
    assert_eq!(t.get_instance_count_by_ip(ip(3)), 0);
}

#[test]
fn free_port_search_reports_exhaustion() {
    let mut t = mk_table(200, 7000, 7001);
    assert_eq!(t.get_next_free_port(), Some(7000));
    assert!(t.register_instance(7000, ip(1), 0));
    assert_eq!(t.get_next_free_port(), Some(7001));
    assert!(t.register_instance(7001, ip(1), 0));
    assert_eq!(t.get_next_free_port(), None);
}

#[test]
fn worker_args_with_wildcard_bind() {
    let t = mk_table(4, 7000, 7010);
    let args = t.worker_command_args(7005);
    assert_eq!(args, vec!["-s", "-1", "-p", "7005"]);
}

#[test]
fn worker_args_with_explicit_bind_and_params() {
    let t = PortTable::new(
        4,
        7000,
        7010,
        String::from("iperf3"),
        vec![String::from("--json"), String::from("-V")],
        String::from("192.0.2.7"),
    )
    .unwrap();
    let args = t.worker_command_args(7000);
    assert_eq!(
        args,
        vec!["-s", "-1", "-p", "7000", "-B", "192.0.2.7", "--json", "-V"]
    );
}
