use taskmaster::mount::{KernelFilesystem, MountInfo};

#[test]
fn add_and_refuse_duplicate_source() {
    let mut kfs = KernelFilesystem::new();
    assert_eq!(kfs.len(), 0);
    assert!(kfs.add(MountInfo::new("proc", "/proc", "proc", 14, "")).is_ok());
    assert!(kfs.add(MountInfo::new("sysfs", "/sys", "sysfs", 14, "")).is_ok());
    assert_eq!(
        kfs.add(MountInfo::new("proc", "/other", "proc", 0, "")),
        Err("proc already in mount list".to_string())
    );
    assert_eq!(kfs.len(), 2);
    assert_eq!(kfs.get(0).target(), "/proc");
    assert_eq!(kfs.get(1).file_system_type(), "sysfs");
}

#[test]
fn add_then_pop_restores() {
    let mut kfs = KernelFilesystem::new();
    kfs.add(MountInfo::new("rootfs", "/", "ext4", 1, "")).unwrap();
    kfs.pop();
    assert_eq!(kfs.len(), 0);
    kfs.pop();
    assert_eq!(kfs.len(), 0);
    assert!(kfs.add(MountInfo::new("rootfs", "/", "ext4", 32, "")).is_ok());
    assert_eq!(kfs.get(0).mount_flags(), 32);
}

#[test]
fn mount_info_equality_by_source() {
    let a = MountInfo::new("udev", "/dev", "devtmpfs", 1, "");
    let b = MountInfo::new("udev", "/mnt", "tmpfs", 2, "x");
    let c = MountInfo::new("proc", "/dev", "devtmpfs", 1, "");
    assert!(a == b);
    assert!(a != c);
    assert_eq!(b.source(), "udev");
    assert_eq!(b.data(), "x");
}
