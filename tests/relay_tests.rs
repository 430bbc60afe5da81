use mazegame::relay::Forwarder;

#[test]
fn frames_pass_in_order_unchanged() {
    let frames = vec![vec![0u8, 3, 0, 4], vec![1, 2], vec![9; 900], vec![0, 3, 0, 4]];
    let mut f = Forwarder::new();
    let mut out = Vec::new();
    for fr in frames.iter() {
        if let Some(w) = f.on_read(Some(fr.clone())) {
            out.push(w);
        }
    }
    assert_eq!(out, frames);
    assert!(f.open);
}

#[test]
fn failed_read_ends_the_direction() {
    let mut f = Forwarder::new();
    assert_eq!(f.on_read(Some(vec![1, 2, 3, 4])), Some(vec![1, 2, 3, 4]));
    assert_eq!(f.on_read(None), None);
    assert!(!f.open);
    assert_eq!(f.on_read(Some(vec![5, 6, 7, 8])), None);
}

#[test]
fn closed_source_ends_the_direction() {
    let mut f = Forwarder::new();
    assert_eq!(f.on_read(Some(vec![])), None);
    assert!(!f.open);
    assert_eq!(f.on_read(Some(vec![1])), None);
}

#[test]
fn failed_write_ends_the_direction() {
    let mut f = Forwarder::new();
    f.on_write_failed();
    assert!(!f.open);
    assert_eq!(f.on_read(Some(vec![1, 2, 3, 4])), None);
}
