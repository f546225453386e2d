use cafs::filesystem::{
    clean_path, gives_up, is_under, mounted_at, parse_mount, Container, Filesystem, Mount, System,
};

fn mount(target: &str) -> Mount {
    Mount {
        source: String::from("none"),
        target: String::from(target),
        fstype: String::from("tmpfs"),
        flags: String::from("rw"),
    }
}

#[test]
fn mount_line_has_four_fields() {
    let m = parse_mount("proc /proc proc rw,nosuid 0 0\n").unwrap();
    assert_eq!(m.source, "proc");
    assert_eq!(m.target, "/proc");
    assert_eq!(m.fstype, "proc");
    assert_eq!(m.flags, "rw,nosuid");
}

#[test]
fn mount_line_with_exactly_four_fields_keeps_the_rest_of_the_line() {
    let m = parse_mount("a b c d\n").unwrap();
    assert_eq!((m.source.as_str(), m.target.as_str()), ("a", "b"));
    assert_eq!((m.fstype.as_str(), m.flags.as_str()), ("c", "d\n"));
}

#[test]
fn doubled_space_makes_an_empty_field() {
    let m = parse_mount("a  b c").unwrap();
    assert_eq!(m.source, "a");
    assert_eq!(m.target, "");
    assert_eq!(m.fstype, "b");
    assert_eq!(m.flags, "c");
}

#[test]
fn short_mount_line_gives_nothing() {
    assert!(parse_mount("").is_none());
    assert!(parse_mount("a b c").is_none());
    assert!(parse_mount("\n").is_none());
}

#[test]
fn clean_path_drops_empty_components() {
    assert_eq!(clean_path("/mnt//sixpool/containera/root/"), "/mnt/sixpool/containera/root");
    assert_eq!(clean_path("mnt/x"), "/mnt/x");
    assert_eq!(clean_path("/"), "");
    assert_eq!(clean_path(""), "");
    assert_eq!(clean_path("///a"), "/a");
}

#[test]
fn is_under_compares_the_start() {
    assert!(is_under("/mnt/sixpool/containera/root/proc", "/mnt/sixpool/containera/root"));
    assert!(is_under("/mnt", "/mnt"));
    assert!(is_under("/mnt", ""));
    assert!(!is_under("/mn", "/mnt"));
    assert!(!is_under("/opt/sixpool", "/mnt"));
}

#[test]
fn mounted_at_finds_the_target() {
    let mounts = vec![mount("/proc"), mount("/mnt/sixpool")];
    assert!(mounted_at(&mounts, &String::from("/mnt/sixpool")));
    assert!(!mounted_at(&mounts, &String::from("/mnt")));
    assert!(!mounted_at(&Vec::new(), &String::from("/mnt")));
}

#[test]
fn fourth_failed_round_gives_up() {
    assert!(!gives_up(1));
    assert!(!gives_up(3));
    assert!(gives_up(4));
}

#[test]
fn container_holds_its_root_and_system() {
    let system = System { cdir: String::from("/mnt/sixpool") };
    let c = Container {
        fs: Filesystem::new(format!("{}/containera/root", system.cdir)),
        system: &system,
    };
    assert_eq!(c.fs.root(), "/mnt/sixpool/containera/root");
    assert_eq!(c.system.cdir, "/mnt/sixpool");
}
