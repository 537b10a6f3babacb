use fetter::table::{max_widths, prepare_field, to_writer_delimited, HeaderFormat, WidthFormat};

#[test]
fn short_values_are_padded() {
    let w = WidthFormat { width_pad: 8, width_chars: 6 };
    assert_eq!(prepare_field(&"numpy".to_string(), &w), "numpy   ");
}

#[test]
fn long_values_get_an_ellipsis() {
    let w = WidthFormat { width_pad: 10, width_chars: 8 };
    assert_eq!(prepare_field(&"matplotlib-inline".to_string(), &w), "matpl...  ");
}

#[test]
fn slightly_long_values_are_cut() {
    let w = WidthFormat { width_pad: 7, width_chars: 5 };
    assert_eq!(prepare_field(&"abcdefg".to_string(), &w), "abcde  ");
}

#[test]
fn delimited_rows() {
    let row = vec!["a".to_string(), "b c".to_string(), "".to_string()];
    assert_eq!(to_writer_delimited(&row, ","), "a,b c,\n");
    assert_eq!(to_writer_delimited(&Vec::new(), ","), "\n");
}

#[test]
fn header_format_keeps_its_fields() {
    let h = HeaderFormat::new("Package".to_string(), true);
    assert_eq!(h.header, "Package");
    assert!(h.ellipsisable);
}

#[test]
fn column_widths_take_the_longest_cell() {
    let labels = vec!["Name".to_string(), "V".to_string()];
    let rows = vec![
        vec!["numpy".to_string(), "1.26.0".to_string()],
        vec!["scikit-learn".to_string()],
        vec!["x".to_string(), "2".to_string(), "ignored-extra".to_string()],
    ];
    assert_eq!(max_widths(&labels, &rows), vec![12, 6]);
    assert_eq!(max_widths(&labels, &Vec::new()), vec![4, 1]);
}
