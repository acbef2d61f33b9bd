use include_graph::path_utils::convert_to_absolute_path;

#[test]
fn test_relative_path() {
    let example_dir = std::path::Path::new("/usr");
    println!("{:?}", example_dir);
    let example = example_dir.to_str().unwrap().to_string();

    // Check if file exists
    let file_a = convert_to_absolute_path("bin", &example, &vec![]);
    println!("{:?}", file_a);
    assert!(file_a.is_some());

    let file_b = convert_to_absolute_path("lib/../bin", &example, &vec![]);
    println!("{:?}", file_b);
    assert!(file_b.is_some());

    let canonical = example_dir.canonicalize().unwrap().to_str().unwrap().to_string();
    let file_b = convert_to_absolute_path("lib/../bin", &canonical, &vec![]);
    println!("{:?}", file_b);
    assert!(file_b.is_some());
}
