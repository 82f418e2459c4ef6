use factorio_export::locale::cfg_file_entries;
use factorio_export::locale::is_locale_cfg_path;
use factorio_export::locale::locale_from_files;
use factorio_export::locale::locale_table;
use factorio_export::locale::split_lines;
use factorio_export::refs::derive_output;
use factorio_export::refs::extract_refs;
use factorio_export::refs::make_work_items;
use factorio_export::refs::resolve_input;
use factorio_export::text::bytes_eq;
use factorio_export::text::ends_with_bytes;
use factorio_export::text::find_byte;
use factorio_export::text::join_path;
use factorio_export::text::replace_bytes;

#[test]
fn bytes_eq_compares_content() {
    assert!(bytes_eq(b"abc", b"abc"));
    assert!(!bytes_eq(b"abc", b"abd"));
    assert!(!bytes_eq(b"abc", b"ab"));
    assert!(bytes_eq(b"", b""));
}

#[test]
fn ends_with_bytes_checks_suffix() {
    assert!(ends_with_bytes(b"icons/a.png", b".png"));
    assert!(!ends_with_bytes(b"icons/a.pngx", b".png"));
    assert!(!ends_with_bytes(b"png", b".png"));
}

#[test]
fn find_byte_finds_first_occurrence() {
    assert_eq!(find_byte(b"a=b=c", 0, b'='), Some(1));
    assert_eq!(find_byte(b"a=b=c", 2, b'='), Some(3));
    assert_eq!(find_byte(b"abc", 0, b'='), None);
}

#[test]
fn replace_bytes_replaces_left_to_right() {
    assert_eq!(replace_bytes(b"__core__/a", b"__core__", b"core"), b"core/a".to_vec());
    assert_eq!(replace_bytes(b"aaa", b"aa", b"b"), b"ba".to_vec());
    assert_eq!(replace_bytes(b"x.png.png", b".png", b".basis"), b"x.basis.basis".to_vec());
    assert_eq!(replace_bytes(b"none", b"zz", b"y"), b"none".to_vec());
}

#[test]
fn join_path_concatenates_with_separator() {
    assert_eq!(join_path(b"data", b"base/info.json"), b"data/base/info.json".to_vec());
}

#[test]
fn same_token_three_times_yields_one_reference() {
    let doc = b"{\"a\":\"__core__/icons/a.png\",\"b\":\"__core__/icons/a.png\",\"c\":\"__core__/icons/a.png\"}";
    let refs = extract_refs(doc);
    assert_eq!(refs.len(), 1);
    assert_eq!(refs[0], b"__core__/icons/a.png".to_vec());
}

#[test]
fn non_image_tokens_are_ignored() {
    let doc = b"{\"name\":\"iron-plate\",\"icon\":\"a.png\",\"bare\":\".png\"}";
    let refs = extract_refs(doc);
    assert_eq!(refs.len(), 1);
    assert_eq!(refs[0], b"a.png".to_vec());
}

#[test]
fn empty_and_unterminated_documents_yield_nothing() {
    assert_eq!(extract_refs(b"").len(), 0);
    assert_eq!(extract_refs(b"no quotes at all").len(), 0);
    // an opening quote with no closing quote never completes a token
    assert_eq!(extract_refs(b"start \"a.png").len(), 0);
}

#[test]
fn extraction_resolves_namespaces_end_to_end() {
    let doc = b"[\"__core__/icons/a.png\", \"__base__/icons/b.png\"]";
    let refs = extract_refs(doc);
    assert_eq!(refs.len(), 2);
    let items = make_work_items(refs, b"data", b"out");
    let mut seen_core = false;
    let mut seen_base = false;
    for item in &items {
        if item.input == b"data/core/icons/a.png".to_vec() {
            assert_eq!(item.output, b"out/core/icons/a.basis".to_vec());
            seen_core = true;
        }
        if item.input == b"data/base/icons/b.png".to_vec() {
            assert_eq!(item.output, b"out/base/icons/b.basis".to_vec());
            seen_base = true;
        }
    }
    assert!(seen_core && seen_base);
}

#[test]
fn resolve_input_substitutes_known_placeholders_only() {
    assert_eq!(
        resolve_input(b"data", b"__core__/icons/a.png"),
        b"data/core/icons/a.png".to_vec()
    );
    assert_eq!(
        resolve_input(b"data", b"__base__/icons/b.png"),
        b"data/base/icons/b.png".to_vec()
    );
    // an unrecognized placeholder stays literal and will simply fail to open
    assert_eq!(
        resolve_input(b"data", b"__mod__/icons/c.png"),
        b"data/__mod__/icons/c.png".to_vec()
    );
}

#[test]
fn derive_output_resolves_and_swaps_the_extension() {
    assert_eq!(
        derive_output(b"out", b"__core__/icons/a.png"),
        b"out/core/icons/a.basis".to_vec()
    );
    // an unrecognized placeholder stays literal, as in the input path
    assert_eq!(
        derive_output(b"out", b"__mod__/icons/c.png"),
        b"out/__mod__/icons/c.basis".to_vec()
    );
}

#[test]
fn split_lines_strips_separators() {
    let lines = split_lines(b"a\r\nb\n\nc");
    let expect: Vec<Vec<u8>> = vec![b"a".to_vec(), b"b".to_vec(), b"".to_vec(), b"c".to_vec()];
    assert_eq!(lines, expect);
    assert_eq!(split_lines(b""), Vec::<Vec<u8>>::new());
    assert_eq!(split_lines(b"x\n"), vec![b"x".to_vec()]);
}

#[test]
fn cfg_entries_group_keys_and_escaping() {
    let text = b"top=plain\n[item]\nname=Iron's plate\n;comment\n\nbroken line\nspeed=2\n";
    let entries = cfg_file_entries(text);
    assert_eq!(
        entries,
        b"['top']='plain',['item.name']='Iron\\'s plate',['item.speed']='2',".to_vec()
    );
}

#[test]
fn locale_table_wraps_entries() {
    let table = locale_table(b"['a']='b',");
    assert_eq!(table, b"return {['a']='b',}".to_vec());
}

#[test]
fn locale_from_files_concatenates_in_file_order() {
    let files = vec![b"[a]\nx=1\n".to_vec(), b"y=2\n".to_vec()];
    assert_eq!(locale_from_files(&files), b"return {['a.x']='1',['y']='2',}".to_vec());
    assert_eq!(locale_from_files(&Vec::new()), b"return {}".to_vec());
}

#[test]
fn locale_cfg_paths_are_recognized() {
    assert!(is_locale_cfg_path(b"data/base/locale/en/base.cfg"));
    assert!(is_locale_cfg_path(b"./data/factorio/data/core/locale/en/core.cfg"));
    assert!(!is_locale_cfg_path(b"data/base/locale/en/deep/base.cfg"));
    assert!(!is_locale_cfg_path(b"data/base/locale/en/base.txt"));
    assert!(!is_locale_cfg_path(b"locale/en/base.cfg"));
    assert!(!is_locale_cfg_path(b"data/base/locale/de/base.cfg"));
}
