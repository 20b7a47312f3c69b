use blog_markdown::store::{latest_name, path_markdown, FileEntry, PostStore};
use blog_markdown::utils::{invalidation_paths, WriteOp};
use blog_markdown::{AppError, PostId};

fn id(year: u16, month: u8, day: u8, hour: u8, minute: u8, second: u8) -> PostId {
    PostId { year, month, day, hour, minute, second }
}

#[test]
fn read_after_create_returns_the_body() {
    let mut store = PostStore::new();
    let p = id(2015, 9, 18, 23, 56, 4);
    store.create(&p, "hello world".to_string());
    assert_eq!(store.read(&p).unwrap(), "hello world");
}

#[test]
fn read_of_unknown_id_is_not_found() {
    let store = PostStore::new();
    let p = id(2015, 9, 18, 23, 56, 4);
    assert_eq!(store.read(&p), Err(AppError::NotFound));
}

#[test]
fn delete_of_unknown_id_is_not_found() {
    let mut store = PostStore::new();
    let p = id(2015, 9, 18, 23, 56, 4);
    assert_eq!(store.delete(&p), Err(AppError::NotFound));
}

#[test]
fn update_overwrites_in_full() {
    let mut store = PostStore::new();
    let p = id(2015, 9, 18, 23, 56, 4);
    store.create(&p, "first body".to_string());
    store.update(&p, "second body".to_string());
    assert_eq!(store.read(&p).unwrap(), "second body");
}

#[test]
fn update_of_absent_id_creates_the_file() {
    let mut store = PostStore::new();
    let p = id(2015, 9, 18, 23, 56, 4);
    store.update(&p, "upserted".to_string());
    assert_eq!(store.read(&p).unwrap(), "upserted");
}

#[test]
fn read_after_delete_is_not_found() {
    let mut store = PostStore::new();
    let p = id(2015, 9, 18, 23, 56, 4);
    store.create(&p, "body".to_string());
    assert_eq!(store.delete(&p), Ok(()));
    assert_eq!(store.read(&p), Err(AppError::NotFound));
}

#[test]
fn writes_to_one_id_leave_others_alone() {
    let mut store = PostStore::new();
    let a = id(2015, 9, 18, 23, 56, 4);
    let b = id(2016, 1, 2, 3, 4, 5);
    store.create(&a, "a body".to_string());
    store.create(&b, "b body".to_string());
    store.update(&a, "a new body".to_string());
    assert_eq!(store.read(&b).unwrap(), "b body");
    store.delete(&a).unwrap();
    assert_eq!(store.read(&b).unwrap(), "b body");
}

#[test]
fn latest_returns_the_lexicographically_last_entry() {
    let mut store = PostStore::new();
    let older = id(2015, 9, 18, 23, 56, 4);
    let newer = id(2016, 1, 2, 3, 4, 5);
    store.create(&newer, "newer body".to_string());
    store.create(&older, "older body".to_string());
    assert_eq!(store.latest().unwrap(), "newer body");
}

#[test]
fn latest_of_empty_store_fails() {
    let store = PostStore::new();
    assert_eq!(store.latest(), Err(AppError::NotFound));
}

#[test]
fn latest_name_picks_the_lexicographically_last() {
    let names = vec![
        "2015-09-18_23-56-04.md".to_string(),
        "2016-01-02_03-04-05.md".to_string(),
        "README".to_string(),
        "2014-01-01_00-00-00.md".to_string(),
    ];
    assert_eq!(latest_name(&names), Some(2));
    let empty: Vec<String> = Vec::new();
    assert_eq!(latest_name(&empty), None);
}

#[test]
fn listing_keeps_write_order_and_filenames() {
    let mut store = PostStore::new();
    let a = id(2015, 9, 18, 23, 56, 4);
    let b = id(2016, 1, 2, 3, 4, 5);
    store.create(&a, "a body".to_string());
    store.create(&b, "b body".to_string());
    let listing: &Vec<FileEntry> = store.list();
    assert_eq!(listing.len(), 2);
    assert_eq!(listing[0].name, "2015-09-18_23-56-04.md");
    assert_eq!(listing[0].contents, "a body");
    assert_eq!(listing[1].name, "2016-01-02_03-04-05.md");
    assert_eq!(listing[1].contents, "b body");
}

#[test]
fn path_derivation_puts_the_file_under_the_root() {
    let p = id(2015, 9, 18, 23, 56, 4);
    assert_eq!(
        path_markdown("/var/lib/posts", &p),
        "/var/lib/posts/2015-09-18_23-56-04.md"
    );
}

#[test]
fn status_codes_follow_the_error_taxonomy() {
    assert_eq!(AppError::NotFound.status_code(), 404);
    assert_eq!(AppError::IoError.status_code(), 500);
    assert_eq!(AppError::OsString.status_code(), 500);
    assert_eq!(AppError::NotFound.message(), "post not found");
    assert_eq!(AppError::IoError.message(), "could not write file");
    assert_eq!(AppError::OsString.message(), "could not parse file name");
}

#[test]
fn create_invalidates_the_derived_views() {
    let paths = invalidation_paths(&WriteOp::Create);
    assert_eq!(paths, vec!["/post/latest", "/rss", "/index"]);
}

#[test]
fn update_and_delete_invalidate_the_post_and_the_views() {
    let p = id(2015, 9, 18, 23, 56, 4);
    let for_update = invalidation_paths(&WriteOp::Update(p));
    assert_eq!(
        for_update,
        vec!["/post/2015-09-18_23-56-04", "/rss", "/index"]
    );
    let for_delete = invalidation_paths(&WriteOp::Delete(p));
    assert_eq!(for_delete, for_update);
}
