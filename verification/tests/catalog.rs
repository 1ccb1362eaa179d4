use nix_search::catalog::{Catalog, CatalogEntry, LoadError, Program};

fn entry(path: &str, description: &str, pname: &str, version: &str) -> CatalogEntry {
    CatalogEntry {
        path: path.to_string(),
        description: description.to_string(),
        pname: pname.to_string(),
        version: version.to_string(),
    }
}

fn listing() -> Vec<CatalogEntry> {
    vec![
        entry("legacyPackages.x86_64-linux.hello", "A friendly greeter", "hello", "2.12.1"),
        entry("legacyPackages.x86_64-linux.python3Packages.numpy", "Arrays", "numpy", "1.26.4"),
        entry("legacyPackages.x86_64-linux.cowsay", "", "cowsay", ""),
    ]
}

#[test]
fn indexable_fields_are_identifier_description_and_package_name() {
    let program = Program {
        id: "hello".to_string(),
        description: "A friendly greeter".to_string(),
        pname: "gnu-hello".to_string(),
        version: "2.12.1".to_string(),
    };
    assert_eq!(program.indexable_fields(), vec!["hello", "A friendly greeter", "gnu-hello"]);
}

#[test]
fn loading_derives_each_identifier_from_its_path() {
    let catalog = Catalog::load(listing()).unwrap();
    assert_eq!(catalog.len(), 3);
    assert_eq!(
        catalog.get(0),
        Some(&Program {
            id: "hello".to_string(),
            description: "A friendly greeter".to_string(),
            pname: "hello".to_string(),
            version: "2.12.1".to_string(),
        })
    );
    assert_eq!(catalog.get(1).unwrap().id, "python3Packages.numpy");
    assert_eq!(catalog.get(2).unwrap().id, "cowsay");
}

#[test]
fn loading_keeps_the_order_of_the_listing() {
    let mut entries = listing();
    entries.reverse();
    let catalog = Catalog::load(entries).unwrap();
    assert_eq!(catalog.program(0).id, "cowsay");
    assert_eq!(catalog.program(1).id, "python3Packages.numpy");
    assert_eq!(catalog.program(2).id, "hello");
}

#[test]
fn loading_keeps_the_other_fields_verbatim() {
    let catalog = Catalog::load(listing()).unwrap();
    let cowsay = catalog.program(2);
    assert_eq!(cowsay.description, "");
    assert_eq!(cowsay.pname, "cowsay");
    assert_eq!(cowsay.version, "");
    assert_eq!(catalog.program(1).version, "1.26.4");
}

#[test]
fn an_empty_listing_gives_an_empty_catalog() {
    let catalog = Catalog::load(Vec::new()).unwrap();
    assert_eq!(catalog.len(), 0);
    assert_eq!(catalog.get(0), None);
}

#[test]
fn no_program_stands_beyond_the_last_key() {
    let catalog = Catalog::load(listing()).unwrap();
    assert!(catalog.get(2).is_some());
    assert_eq!(catalog.get(3), None);
    assert_eq!(catalog.get(usize::MAX), None);
}

#[test]
fn a_path_with_fewer_than_two_separators_is_refused() {
    let mut entries = listing();
    entries[1].path = "numpy".to_string();
    assert_eq!(Catalog::load(entries).err(), Some(LoadError::MalformedPath { position: 1 }));
    let mut entries = listing();
    entries[2].path = "legacyPackages.cowsay".to_string();
    assert_eq!(Catalog::load(entries).err(), Some(LoadError::MalformedPath { position: 2 }));
}

#[test]
fn a_path_with_nothing_behind_the_second_separator_is_refused() {
    let mut entries = listing();
    entries[0].path = "legacyPackages.x86_64-linux.".to_string();
    assert_eq!(Catalog::load(entries).err(), Some(LoadError::MalformedPath { position: 0 }));
}

#[test]
fn an_empty_package_name_is_refused() {
    let mut entries = listing();
    entries[2].pname = String::new();
    assert_eq!(Catalog::load(entries).err(), Some(LoadError::EmptyPname { position: 2 }));
}

#[test]
fn the_first_fault_is_reported() {
    let mut entries = listing();
    entries[1].pname = String::new();
    entries[2].path = "cowsay".to_string();
    assert_eq!(Catalog::load(entries).err(), Some(LoadError::EmptyPname { position: 1 }));
    let mut entries = listing();
    entries[0].path = "x".to_string();
    entries[0].pname = String::new();
    assert_eq!(Catalog::load(entries).err(), Some(LoadError::MalformedPath { position: 0 }));
}
