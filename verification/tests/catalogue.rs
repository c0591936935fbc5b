use dmx_patch::artnet::fixture::channel::{Channel, SimpleAction};
use dmx_patch::artnet::fixture::Fixture;
use dmx_patch::fixturestore::FixtureStore;
use std::sync::Arc;

fn fixture(model: &str, channels: usize) -> Arc<Fixture> {
    let list: Vec<Channel> = (0..channels).map(|_| Channel::new_simple(SimpleAction::NoOp)).collect();
    Arc::new(Fixture::new(
        Arc::from("VRSL"),
        Arc::from(model),
        Arc::from("Color Changer"),
        Arc::from(list),
    ))
}

fn path(names: &[&str]) -> Vec<Arc<str>> {
    names.iter().map(|name| Arc::from(*name)).collect()
}

fn models(store: &FixtureStore, folder: &[&str]) -> Vec<String> {
    store.fixtures_at(&path(folder)).iter().map(|f| f.get_model().to_string()).collect()
}

fn submenus(store: &FixtureStore, folder: &[&str]) -> Vec<String> {
    store.submenus_at(&path(folder)).iter().map(|name| name.to_string()).collect()
}

#[test]
fn a_new_catalogue_is_empty() {
    let store = FixtureStore::new();
    assert!(store.is_empty());
    assert!(FixtureStore::default().is_empty());
    assert!(models(&store, &[]).is_empty());
    assert!(submenus(&store, &[]).is_empty());
    assert!(models(&store, &["VRSL"]).is_empty());
    assert!(submenus(&store, &["VRSL"]).is_empty());
}

#[test]
fn a_filed_fixture_is_found_in_its_folder_once() {
    let mut store = FixtureStore::new();
    store.put_path(&path(&["VRSL", "ParLight"]), fixture("Standard Par Light", 13));
    assert!(!store.is_empty());
    assert_eq!(submenus(&store, &[]), vec!["VRSL"]);
    assert_eq!(submenus(&store, &["VRSL"]), vec!["ParLight"]);
    assert_eq!(models(&store, &["VRSL", "ParLight"]), vec!["Standard Par Light"]);
    assert!(models(&store, &["VRSL"]).is_empty());
    assert!(models(&store, &[]).is_empty());
    assert!(submenus(&store, &["VRSL", "ParLight"]).is_empty());
}

#[test]
fn a_fixture_filed_under_its_manufacturer_is_in_that_folder() {
    let mut store = FixtureStore::new();
    let par = fixture("ParLight", 13);
    store.put_path(&par.get_path(), par.clone());
    assert_eq!(submenus(&store, &[]), vec!["VRSL"]);
    assert_eq!(models(&store, &["VRSL"]), vec!["ParLight"]);
    let listed = store.fixtures_at(&path(&["VRSL"]));
    assert_eq!(listed.len(), 1);
    assert_eq!(*listed[0], *par);
}

#[test]
fn filing_the_same_fixture_twice_changes_nothing() {
    let mut store = FixtureStore::new();
    store.put_path(&path(&["VRSL"]), fixture("ParLight", 13));
    store.put_path(&path(&["VRSL"]), fixture("ParLight", 13));
    store.put_path(&path(&["VRSL"]), fixture("ParLight", 13));
    assert_eq!(models(&store, &["VRSL"]), vec!["ParLight"]);
    assert_eq!(submenus(&store, &[]), vec!["VRSL"]);
}

#[test]
fn fixtures_that_differ_are_both_kept() {
    let mut store = FixtureStore::new();
    store.put_path(&path(&["VRSL"]), fixture("ParLight", 13));
    store.put_path(&path(&["VRSL"]), fixture("ParLight", 12));
    let listed = store.fixtures_at(&path(&["VRSL"]));
    assert_eq!(listed.len(), 2);
    assert_eq!(listed[0].get_channels().len(), 13);
    assert_eq!(listed[1].get_channels().len(), 12);
}

#[test]
fn one_fixture_can_be_filed_in_several_folders() {
    let mut store = FixtureStore::new();
    store.put_path(&path(&["VRSL"]), fixture("ParLight", 13));
    store.put_path(&path(&["Other", "Lights"]), fixture("ParLight", 13));
    store.put_path(&path(&[]), fixture("ParLight", 13));
    assert_eq!(models(&store, &["VRSL"]), vec!["ParLight"]);
    assert_eq!(models(&store, &["Other", "Lights"]), vec!["ParLight"]);
    assert_eq!(models(&store, &[]), vec!["ParLight"]);
    assert_eq!(submenus(&store, &[]), vec!["Other", "VRSL"]);
}

#[test]
fn fixtures_of_a_folder_are_listed_by_model() {
    let mut store = FixtureStore::new();
    for model in ["Standard Par Light", "Standard Blinder", "Standard BarLight", "Alpha", "alpha"] {
        store.put_path(&path(&["VRSL"]), fixture(model, 13));
    }
    assert_eq!(
        models(&store, &["VRSL"]),
        vec!["Alpha", "Standard BarLight", "Standard Blinder", "Standard Par Light", "alpha"]
    );
}

#[test]
fn folders_are_listed_by_name() {
    let mut store = FixtureStore::new();
    for (folder, model) in [("Pan540", "a"), ("Pan180", "b"), ("Pan360", "c"), ("Pan", "d")] {
        store.put_path(&path(&["VRSL", "varying", folder]), fixture(model, 1));
    }
    assert_eq!(submenus(&store, &["VRSL", "varying"]), vec!["Pan", "Pan180", "Pan360", "Pan540"]);
    assert_eq!(submenus(&store, &["VRSL"]), vec!["varying"]);
    assert!(submenus(&store, &["VRSL", "varying", "Pan180"]).is_empty());
    assert!(submenus(&store, &["VRSL", "nowhere"]).is_empty());
    assert!(submenus(&store, &["nowhere"]).is_empty());
}

#[test]
fn a_fixture_next_to_folders_is_listed_in_its_own_folder() {
    let mut store = FixtureStore::new();
    store.put_path(&path(&["VRSL"]), fixture("ParLight", 13));
    store.put_path(&path(&["VRSL", "varying", "Pan180"]), fixture("Mover", 13));
    assert_eq!(models(&store, &["VRSL"]), vec!["ParLight"]);
    assert_eq!(submenus(&store, &["VRSL"]), vec!["varying"]);
    assert_eq!(models(&store, &["VRSL", "varying", "Pan180"]), vec!["Mover"]);
    assert!(models(&store, &["VRSL", "varying"]).is_empty());
}

fn walked(store: &FixtureStore) -> Vec<(String, String)> {
    store
        .traverse()
        .iter()
        .map(|(folder, fixture)| {
            let names: Vec<&str> = folder.iter().map(|name| &**name).collect();
            (names.join("/"), fixture.get_model().to_string())
        })
        .collect()
}

fn pair(folder: &str, model: &str) -> (String, String) {
    (folder.to_string(), model.to_string())
}

#[test]
fn the_traversal_visits_a_folder_before_what_is_below_it() {
    let mut store = FixtureStore::new();
    store.put_path(&path(&["VRSL", "varying", "Pan180"]), fixture("Mover", 13));
    store.put_path(&path(&["VRSL"]), fixture("Standard Par Light", 13));
    store.put_path(&path(&["VRSL"]), fixture("Standard Blinder", 13));
    store.put_path(&path(&["Other"]), fixture("Zed", 1));
    store.put_path(&path(&["VRSL", "varying"]), fixture("Between", 1));
    store.put_path(&path(&[]), fixture("Top", 1));
    store.put_path(&path(&["VRSL", "a"]), fixture("First", 1));
    assert_eq!(
        walked(&store),
        vec![
            pair("", "Top"),
            pair("Other", "Zed"),
            pair("VRSL", "Standard Blinder"),
            pair("VRSL", "Standard Par Light"),
            pair("VRSL/a", "First"),
            pair("VRSL/varying", "Between"),
            pair("VRSL/varying/Pan180", "Mover"),
        ]
    );
}

#[test]
fn the_traversal_shows_no_fixture_twice() {
    let mut store = FixtureStore::new();
    store.put_path(&path(&["VRSL", "ParLight"]), fixture("Standard Par Light", 13));
    store.put_path(&path(&["VRSL", "ParLight"]), fixture("Standard Par Light", 13));
    assert_eq!(walked(&store), vec![pair("VRSL/ParLight", "Standard Par Light")]);
    assert!(walked(&FixtureStore::new()).is_empty());
}

#[test]
fn the_traversal_is_the_folders_walked_in_order() {
    let mut store = FixtureStore::new();
    store.populate_fixture_store_defaults();
    store.put_path(&path(&["Acme", "Lights"]), fixture("Beam", 2));
    fn walk(store: &FixtureStore, folder: &mut Vec<Arc<str>>, seen: &mut Vec<(String, String)>) {
        let here: Vec<&str> = folder.iter().map(|name| &**name).collect();
        let here = here.join("/");
        for f in store.fixtures_at(folder) {
            seen.push((here.clone(), f.get_model().to_string()));
        }
        for name in store.submenus_at(folder) {
            folder.push(name);
            walk(store, folder, seen);
            folder.pop();
        }
    }
    let mut seen = Vec::new();
    walk(&store, &mut Vec::new(), &mut seen);
    assert_eq!(seen, walked(&store));
    assert_eq!(seen.len(), 22);
}

#[test]
fn a_catalogue_starts_with_the_vrsl_fixtures() {
    let mut store = FixtureStore::new();
    store.populate_fixture_store_defaults();
    assert!(!store.is_empty());
    assert_eq!(submenus(&store, &[]), vec!["VRSL"]);
    assert_eq!(
        models(&store, &["VRSL"]),
        vec!["Standard BarLight", "Standard Blinder", "Standard Par Light"]
    );
    assert_eq!(submenus(&store, &["VRSL"]), vec!["varying"]);
    assert_eq!(submenus(&store, &["VRSL", "varying"]), vec!["Pan180", "Pan360", "Pan540"]);
    for pan in ["Pan180", "Pan360", "Pan540"] {
        assert_eq!(
            submenus(&store, &["VRSL", "varying", pan]),
            vec!["Tilt180", "Tilt250", "Tilt270"]
        );
        for tilt in ["Tilt180", "Tilt250", "Tilt270"] {
            assert_eq!(
                models(&store, &["VRSL", "varying", pan, tilt]),
                vec!["Standard Laser", "Standard Mover Spotlight"]
            );
        }
    }
    assert_eq!(walked(&store).len(), 21);
}

#[test]
fn filling_a_catalogue_twice_adds_nothing() {
    let mut store = FixtureStore::new();
    store.populate_fixture_store_defaults();
    let once = walked(&store);
    store.populate_fixture_store_defaults();
    assert_eq!(walked(&store), once);
}

#[test]
fn filling_a_catalogue_keeps_what_was_filed() {
    let mut store = FixtureStore::new();
    store.put_path(&path(&["VRSL"]), fixture("Mine", 4));
    store.populate_fixture_store_defaults();
    assert_eq!(
        models(&store, &["VRSL"]),
        vec!["Mine", "Standard BarLight", "Standard Blinder", "Standard Par Light"]
    );
}

#[test]
fn fixtures_with_one_model_name_are_listed_in_the_order_of_their_first_filing() {
    let mut store = FixtureStore::new();
    store.put_path(&path(&["Elsewhere"]), fixture("Twin", 3));
    store.put_path(&path(&["VRSL"]), fixture("Twin", 2));
    store.put_path(&path(&["VRSL"]), fixture("Twin", 1));
    store.put_path(&path(&["VRSL"]), fixture("Twin", 3));
    store.put_path(&path(&["VRSL"]), fixture("Aardvark", 9));
    let sizes: Vec<usize> = store
        .fixtures_at(&path(&["VRSL"]))
        .iter()
        .map(|f| f.get_channels().len())
        .collect();
    assert_eq!(sizes, vec![9, 3, 2, 1]);
}
