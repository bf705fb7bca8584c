use metanoid_procgen::visuals::flavor::{Flavor, hybrid_name};

#[test]
fn name_roundtrip() {
    assert_eq!(Flavor::from_name("Forest"), Some(Flavor::Forest));
    assert_eq!(Flavor::from_name("Deep Ocean"), Some(Flavor::Ocean));
    assert_eq!(Flavor::from_name("nope"), None);
}

#[test]
fn every_attractor_name_maps() {
    let names = ["Forest", "Volcanic", "Deep Ocean", "Crystal Cavern", "Neon City", "Cosmic Void", "Desert", "Arctic"];
    let flavors = [Flavor::Forest, Flavor::Volcanic, Flavor::Ocean, Flavor::Crystal, Flavor::Neon, Flavor::Void, Flavor::Desert, Flavor::Arctic];
    for (n, f) in names.iter().zip(flavors.iter()) {
        assert_eq!(Flavor::from_name(n), Some(*f));
    }
    assert_eq!(Flavor::from_name("Ocean"), None);
    assert_eq!(Flavor::from_name("forest"), None);
    assert_eq!(Flavor::Ocean.base_name(), "Ocean");
    assert_eq!(Flavor::Crystal.base_name(), "Crystal");
}

#[test]
fn hybrid_names() {
    assert_eq!(hybrid_name(Flavor::Forest, Flavor::Volcanic), "Ember Grove");
    assert_eq!(hybrid_name(Flavor::Volcanic, Flavor::Forest), "Ember Grove");
    assert_eq!(hybrid_name(Flavor::Desert, Flavor::Arctic), "Frozen Wastes");
    assert_eq!(hybrid_name(Flavor::Forest, Flavor::Ocean), "Forest Ocean");
    assert_eq!(hybrid_name(Flavor::Ocean, Flavor::Forest), "Ocean Forest");
}
