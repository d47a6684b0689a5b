use dirtar::listing::{render_listing, sort_listing, ListingEntry};

fn entry(name: &str, is_dir: bool, size: u64) -> ListingEntry {
    ListingEntry { name: name.as_bytes().to_vec(), is_dir, size }
}

#[test]
fn directories_first_then_names() {
    let sorted = sort_listing(vec![
        entry("b.txt", false, 1),
        entry("zdir", true, 0),
        entry("a.txt", false, 2),
        entry("adir", true, 0),
    ]);
    let names: Vec<&[u8]> = sorted.iter().map(|e| &e.name[..]).collect();
    assert_eq!(names, vec![&b"adir"[..], b"zdir", b"a.txt", b"b.txt"]);
}

#[test]
fn page_lists_rows_with_encoded_names() {
    let page = render_listing(b"/docs/", &vec![entry("my dir", true, 0), entry("a<b>.txt", false, 1234)]);
    let html = String::from_utf8(page).unwrap();
    assert!(html.starts_with("<!DOCTYPE html>\n<html><head>\n<title>Index of "));
    assert!(html.contains("<small>[<a href=\"/docs.tar\">.tar</a> of whole directory]</small>\n"));
    assert!(html.contains("<a href=\"my%20dir/\">my dir/</a>"));
    assert!(html.contains("<a href=\"my%20dir.tar\">.tar</a>"));
    assert!(html.contains("<a href=\"a%3Cb%3E%2Etxt\">a&lt;b&gt;.txt</a>"));
    assert!(html.contains("    <td>1234</td></tr>\n"));
    assert!(html.ends_with("</table>\n<footer>dirtar 0.1.0</footer>\n</body>\n</html>\n"));
    let dir_row = html.find("my%20dir/").unwrap();
    let file_row = html.find("a%3Cb").unwrap();
    assert!(dir_row < file_row);
}

#[test]
fn zero_size_is_written_as_zero() {
    let page = String::from_utf8(render_listing(b"/", &vec![entry("e", false, 0)])).unwrap();
    assert!(page.contains("    <td>0</td></tr>\n"));
    assert!(page.contains("<a href=\".tar\">"));
}
