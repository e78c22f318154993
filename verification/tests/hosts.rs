use kubetransport::addr::{HostAddr, Ipv4Addr, Ipv6Addr};
use kubetransport::hostsfile::{Hosts, HostsError, HostsLine};

const BASE_FILE: &str =
    "127.0.0.1   localhost localhost.localdomain localhost4 localhost4.localdomain4
::1         localhost localhost.localdomain localhost6 localhost6.localdomain6

#
# a comment
192.168.122.250 something.local

# START KUBETRANSPORT MANAGED
127.8.0.1 crab.default.svc.cluster.local
127.8.0.2 gopher.default.svc.cluster.local
127.8.0.3 snake.default.svc.cluster.local
# END KUBETRANSPORT MANAGED

127.8.0.5 somethingelse.local
";

#[test]
fn roundtrip() {
    let hosts = Hosts::from_str(BASE_FILE);

    assert_eq!(hosts.encode(), BASE_FILE)
}

#[test]
fn clean_set_write() {
    let mut hosts = Hosts::from_str("");
    let name = "elephant.default.svc.cluster.local";

    hosts.get_or_create_ip(&name.to_string()).unwrap();

    assert_eq!(
        hosts.encode(),
        "# START KUBETRANSPORT MANAGED
127.8.0.1 elephant.default.svc.cluster.local
# END KUBETRANSPORT MANAGED
"
    )
}

#[test]
fn set() {
    let mut hosts = Hosts::from_str(BASE_FILE);

    let name = "crab.default.svc.cluster.local";
    let names = vec![name.to_string()];
    let ip = HostAddr::V4(Ipv4Addr::new(127, 8, 0, 10));

    hosts.set(&name.to_string(), ip).unwrap();

    let found: Vec<&HostsLine> = hosts
        .entries
        .iter()
        .filter(|&e| {
            if let HostsLine::Entry(e) = e {
                return e.names.len() == 1 && e.names[0] == name;
            }
            false
        })
        .collect();

    assert!(found.len() == 1);

    if let HostsLine::Entry(found) = found[0] {
        assert_eq!(ip, found.ip);
        assert_eq!(names, found.names);
        assert_eq!("".to_string(), found.raw);
        assert_eq!(true, found.managed);
    } else {
        panic!("not an entry")
    }
}

#[test]
fn delete() {
    let mut hosts = Hosts::from_str(BASE_FILE);
    let name = "crab.default.svc.cluster.local";
    let length = hosts.entries.len();

    hosts.delete(&name.to_string()).unwrap();

    assert_eq!(length, hosts.entries.len() + 1)
}

#[test]
fn get_ip() {
    let mut hosts = Hosts::from_str(BASE_FILE);
    let name = "snake.default.svc.cluster.local";
    let ip = HostAddr::V4(Ipv4Addr::new(127, 8, 0, 3));

    assert_eq!(ip, hosts.get_or_create_ip(&name.to_string()).unwrap());
}

#[test]
fn create_ip() {
    let mut hosts = Hosts::from_str(BASE_FILE);
    let name = "elephant.default.svc.cluster.local";
    let ip = HostAddr::V4(Ipv4Addr::new(127, 8, 0, 4));

    assert_eq!(ip, hosts.get_or_create_ip(&name.to_string()).unwrap());

    // Only addresses inside the managed region count for allocation, so the
    // unmanaged 127.8.0.5 line is skipped and allocation grows the tail.
    let name = "camel.default.svc.cluster.local";
    let ip = HostAddr::V4(Ipv4Addr::new(127, 8, 0, 5));

    assert_eq!(ip, hosts.get_or_create_ip(&name.to_string()).unwrap());
}

#[test]
fn sentinels_created_once() {
    let mut hosts = Hosts::from_str("");
    hosts
        .get_or_create_ip(&"a.b.svc.cluster.local".to_string())
        .unwrap();
    hosts
        .get_or_create_ip(&"c.d.svc.cluster.local".to_string())
        .unwrap();

    let starts = hosts
        .entries
        .iter()
        .filter(|e| matches!(e, HostsLine::ManagedStart))
        .count();
    let ends = hosts
        .entries
        .iter()
        .filter(|e| matches!(e, HostsLine::ManagedEnd))
        .count();
    assert_eq!(1, starts);
    assert_eq!(1, ends);
}

#[test]
fn stable_ip_on_repeat() {
    let mut hosts = Hosts::from_str("");
    let name = "elephant.default.svc.cluster.local".to_string();
    let first = hosts.get_or_create_ip(&name).unwrap();
    let len = hosts.entries.len();
    let second = hosts.get_or_create_ip(&name).unwrap();
    assert_eq!(first, second);
    assert_eq!(len, hosts.entries.len());
}

#[test]
fn gap_allocation() {
    let file = "# START KUBETRANSPORT MANAGED
127.8.0.1 a.default.svc.cluster.local
127.8.0.3 b.default.svc.cluster.local
# END KUBETRANSPORT MANAGED
";
    let hosts = Hosts::from_str(file);
    assert_eq!(Ok(Ipv4Addr::new(127, 8, 0, 2)), hosts.available_ip());
}

#[test]
fn monotone_tail_allocation() {
    let file = "# START KUBETRANSPORT MANAGED
127.8.0.1 a.default.svc.cluster.local
127.8.0.2 b.default.svc.cluster.local
127.8.0.3 c.default.svc.cluster.local
# END KUBETRANSPORT MANAGED
";
    let hosts = Hosts::from_str(file);
    assert_eq!(Ok(Ipv4Addr::new(127, 8, 0, 4)), hosts.available_ip());
}

#[test]
fn first_allocation_is_range_start() {
    let hosts = Hosts::from_str("");
    assert_eq!(Ok(Ipv4Addr::new(127, 8, 0, 1)), hosts.available_ip());
}

#[test]
fn allocation_carries_into_third_octet() {
    let file = "# START KUBETRANSPORT MANAGED
127.8.0.255 a.default.svc.cluster.local
# END KUBETRANSPORT MANAGED
";
    let hosts = Hosts::from_str(file);
    assert_eq!(Ok(Ipv4Addr::new(127, 8, 1, 0)), hosts.available_ip());
}

#[test]
fn allocation_exhausted_at_range_top() {
    let file = "# START KUBETRANSPORT MANAGED
127.8.255.255 a.default.svc.cluster.local
# END KUBETRANSPORT MANAGED
";
    let hosts = Hosts::from_str(file);
    assert_eq!(Err(HostsError::AddressSpaceExhausted), hosts.available_ip());
}

#[test]
fn set_same_name_does_not_grow() {
    let mut hosts = Hosts::from_str(BASE_FILE);
    let name = "crab.default.svc.cluster.local".to_string();
    hosts.set(&name, HostAddr::V4(Ipv4Addr::new(127, 8, 0, 9))).unwrap();
    let len = hosts.entries.len();
    hosts.set(&name, HostAddr::V4(Ipv4Addr::new(127, 8, 0, 10))).unwrap();
    assert_eq!(len, hosts.entries.len());
}

#[test]
fn delete_absent_is_noop() {
    let mut hosts = Hosts::from_str(BASE_FILE);
    let len = hosts.entries.len();
    hosts
        .delete(&"absent.default.svc.cluster.local".to_string())
        .unwrap();
    assert_eq!(len, hosts.entries.len());
}

#[test]
fn reset_preserves_unmanaged() {
    let mut hosts = Hosts::from_str(BASE_FILE);
    hosts.reset();

    let expected = "127.0.0.1   localhost localhost.localdomain localhost4 localhost4.localdomain4
::1         localhost localhost.localdomain localhost6 localhost6.localdomain6

#
# a comment
192.168.122.250 something.local

# START KUBETRANSPORT MANAGED
# END KUBETRANSPORT MANAGED

127.8.0.5 somethingelse.local
";
    assert_eq!(expected, hosts.encode());
}

#[test]
fn reset_remembers_previous_ip() {
    let mut hosts = Hosts::from_str(BASE_FILE);
    hosts.reset();
    let ip = hosts
        .get_or_create_ip(&"snake.default.svc.cluster.local".to_string())
        .unwrap();
    assert_eq!(HostAddr::V4(Ipv4Addr::new(127, 8, 0, 3)), ip);
}

#[test]
fn unmanaged_collision_is_error() {
    let mut hosts = Hosts::from_str(BASE_FILE);
    assert_eq!(
        Err(HostsError::NameCollidesWithUnmanaged),
        hosts.get_or_create_ip(&"something.local".to_string())
    );
}

#[test]
fn ambiguous_name_is_error() {
    let file = "# START KUBETRANSPORT MANAGED
127.8.0.1 twin.default.svc.cluster.local
127.8.0.2 twin.default.svc.cluster.local
# END KUBETRANSPORT MANAGED
";
    let mut hosts = Hosts::from_str(file);
    assert_eq!(
        Err(HostsError::AmbiguousEntry),
        hosts.get_or_create_ip(&"twin.default.svc.cluster.local".to_string())
    );
}

#[test]
fn managed_ipv6_entry_resolves() {
    let file = "# START KUBETRANSPORT MANAGED
::1 odd.default.svc.cluster.local
# END KUBETRANSPORT MANAGED
";
    let mut hosts = Hosts::from_str(file);
    let loopback = Ipv6Addr {
        s0: 0,
        s1: 0,
        s2: 0,
        s3: 0,
        s4: 0,
        s5: 0,
        s6: 0,
        s7: 1,
    };
    assert_eq!(
        Ok(HostAddr::V6(loopback)),
        hosts.get_or_create_ip(&"odd.default.svc.cluster.local".to_string())
    );
    // the entry stays in the file and roundtrips in canonical form
    assert_eq!(file, hosts.encode());
}

#[test]
fn managed_ipv6_entry_rerenders_canonically() {
    let file = "# START KUBETRANSPORT MANAGED
0:0:0:0:0:0:0:1 a.default.svc.cluster.local
::FFFF:1.2.3.4 b.default.svc.cluster.local
# END KUBETRANSPORT MANAGED
";
    let hosts = Hosts::from_str(file);
    assert_eq!(
        "# START KUBETRANSPORT MANAGED
::1 a.default.svc.cluster.local
::ffff:1.2.3.4 b.default.svc.cluster.local
# END KUBETRANSPORT MANAGED
",
        hosts.encode()
    );
}

#[test]
fn invalid_address_like_fields_stay_raw() {
    // neither field is a valid address, so both lines stay raw and the
    // names on them do not collide with managed allocation
    let file = "1:2:3:4:5:6:7:8:9 myhost
::: x
";
    let mut hosts = Hosts::from_str(file);
    assert_eq!(file, hosts.encode());
    assert_eq!(
        Ok(HostAddr::V4(Ipv4Addr::new(127, 8, 0, 1))),
        hosts.get_or_create_ip(&"myhost".to_string())
    );
}

#[test]
fn known_services_from_managed_entries() {
    let hosts = Hosts::from_str(BASE_FILE);
    let known = hosts.get_known_services();
    assert_eq!(3, known.len());
    assert_eq!("crab", known[0].service_name.name);
    assert_eq!("default", known[0].service_name.ns);
    assert_eq!(HostAddr::V4(Ipv4Addr::new(127, 8, 0, 1)), known[0].ip);
    assert_eq!("snake", known[2].service_name.name);
}

#[test]
fn malformed_lines_kept_verbatim() {
    let file = "not an entry at all\n999.1.2.3 bogus\n";
    let hosts = Hosts::from_str(file);
    assert_eq!(file, hosts.encode());
}

#[test]
fn create_ip_when_range_exhausted() {
    let file = "# START KUBETRANSPORT MANAGED
127.8.255.255 top.default.svc.cluster.local
# END KUBETRANSPORT MANAGED
";
    let mut hosts = Hosts::from_str(file);
    assert_eq!(
        Err(HostsError::AddressSpaceExhausted),
        hosts.get_or_create_ip(&"more.default.svc.cluster.local".to_string())
    );
}
