use std::io::ErrorKind;
use tikv::util::sys::{get_priority, set_priority, HIGH_PRI};

#[test]
fn test_set_priority() {
    // priority is a value in range -20 to 19, the default priority
    // is 0, lower priorities cause more favorable scheduling.
    assert_eq!(get_priority().unwrap(), 0);
    set_priority(10).unwrap();
    assert_eq!(get_priority().unwrap(), 10);

    // only users which have `SYS_NICE_CAP` capability can increase priority.
    let ret = set_priority(HIGH_PRI);
    if let Err(e) = ret {
        assert_eq!(e.kind(), ErrorKind::PermissionDenied);
    } else {
        assert_eq!(get_priority().unwrap(), HIGH_PRI);
    }
}
