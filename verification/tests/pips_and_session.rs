use dominos::pips::{pip_value, total_pips};
use dominos::session::{delete_image_url, image_filename, Session};

#[test]
fn every_pip_label_has_its_number() {
    for n in 0..=12u32 {
        assert_eq!(pip_value(&format!("pip-{}", n)), n);
    }
}

#[test]
fn other_labels_count_nothing() {
    for l in ["pip-13", "pip-01", "pip-", "Pip-1", "pip-1 ", "domino", "", "pip-20", "pip-1x"] {
        assert_eq!(pip_value(l), 0, "{}", l);
    }
}

#[test]
fn totals_add_up() {
    let labels = vec!["pip-6".to_string(), "pip-12".to_string(), "blank".to_string(), "pip-0".to_string(), "pip-3".to_string()];
    assert_eq!(total_pips(&labels), 21);
    assert_eq!(total_pips(&vec![]), 0);
}

#[test]
fn file_name_is_the_last_segment() {
    assert_eq!(image_filename("http://localhost:8000/static/out/abc.jpg"), "abc.jpg");
    assert_eq!(image_filename("abc.jpg"), "abc.jpg");
    assert_eq!(image_filename("http://host/dir/"), "");
    assert_eq!(image_filename(""), "");
}

#[test]
fn delete_address() {
    assert_eq!(delete_image_url("abc.jpg"), "http://localhost:8000/delete-image?filename=abc.jpg");
}

#[test]
fn session_flow() {
    let mut s = Session::new();
    assert_eq!(s.cleanup_request(), None);
    assert!(!s.show_count);
    s.record_detections("http://localhost:8000/static/p1.jpg".to_string(), vec!["pip-2".to_string(), "pip-5".to_string()]);
    assert_eq!(
        s.cleanup_request(),
        Some("http://localhost:8000/delete-image?filename=p1.jpg".to_string())
    );
    assert!(!s.show_count);
    s.add_dominos();
    assert!(s.show_count);
    assert_eq!(s.total_count, 7);
    s.record_detections("http://localhost:8000/static/p2.jpg".to_string(), vec!["pip-12".to_string()]);
    assert_eq!(s.total_count, 7);
    s.add_dominos();
    assert_eq!(s.total_count, 12);
}
