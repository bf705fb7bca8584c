//! Names of the visual flavours: the attractor names they answer to, their
//! short names, and the names of two-flavour hybrids.
use vstd::prelude::*;
use vstd::string::StringSliceAdditionalSpecFns;

verus! {

broadcast use vstd::string::group_string_axioms;

#[derive(Debug, Clone, Copy, PartialEq, Eq, Structural)]
pub enum Flavor {
    Forest,
    Volcanic,
    Ocean,
    Crystal,
    Neon,
    Void,
    Desert,
    Arctic,
}

/// The attractor name that selects each flavour.
pub open spec fn attractor_name(f: Flavor) -> Seq<char> {
    match f {
        Flavor::Forest => "Forest"@,
        Flavor::Volcanic => "Volcanic"@,
        Flavor::Ocean => "Deep Ocean"@,
        Flavor::Crystal => "Crystal Cavern"@,
        Flavor::Neon => "Neon City"@,
        Flavor::Void => "Cosmic Void"@,
        Flavor::Desert => "Desert"@,
        Flavor::Arctic => "Arctic"@,
    }
}

/// The flavour whose attractor is called `name`, if any.
pub open spec fn flavor_named(name: Seq<char>) -> Option<Flavor> {
    if name == "Forest"@ {
        Some(Flavor::Forest)
    } else if name == "Volcanic"@ {
        Some(Flavor::Volcanic)
    } else if name == "Deep Ocean"@ {
        Some(Flavor::Ocean)
    } else if name == "Crystal Cavern"@ {
        Some(Flavor::Crystal)
    } else if name == "Neon City"@ {
        Some(Flavor::Neon)
    } else if name == "Cosmic Void"@ {
        Some(Flavor::Void)
    } else if name == "Desert"@ {
        Some(Flavor::Desert)
    } else if name == "Arctic"@ {
        Some(Flavor::Arctic)
    } else {
        None
    }
}

/// The short name of each flavour.
pub open spec fn short_name(f: Flavor) -> Seq<char> {
    match f {
        Flavor::Forest => "Forest"@,
        Flavor::Volcanic => "Volcanic"@,
        Flavor::Ocean => "Ocean"@,
        Flavor::Crystal => "Crystal"@,
        Flavor::Neon => "Neon"@,
        Flavor::Void => "Void"@,
        Flavor::Desert => "Desert"@,
        Flavor::Arctic => "Arctic"@,
    }
}

/// The dedicated name of a hybrid of two flavours, in either order.
pub open spec fn pair_name(a: Flavor, b: Flavor) -> Option<Seq<char>> {
    match (a, b) {
        (Flavor::Forest, Flavor::Volcanic) | (Flavor::Volcanic, Flavor::Forest) => Some("Ember Grove"@),
        (Flavor::Forest, Flavor::Neon) | (Flavor::Neon, Flavor::Forest) => Some("Neon Grove"@),
        (Flavor::Forest, Flavor::Void) | (Flavor::Void, Flavor::Forest) => Some("Wraithwood"@),
        (Flavor::Forest, Flavor::Arctic) | (Flavor::Arctic, Flavor::Forest) => Some("Frostpine"@),
        (Flavor::Volcanic, Flavor::Void) | (Flavor::Void, Flavor::Volcanic) => Some("Ash Abyss"@),
        (Flavor::Volcanic, Flavor::Desert) | (Flavor::Desert, Flavor::Volcanic) => Some("Charred Dunes"@),
        (Flavor::Volcanic, Flavor::Arctic) | (Flavor::Arctic, Flavor::Volcanic) => Some("Steam Crags"@),
        (Flavor::Ocean, Flavor::Arctic) | (Flavor::Arctic, Flavor::Ocean) => Some("Glacier Reef"@),
        (Flavor::Crystal, Flavor::Arctic) | (Flavor::Arctic, Flavor::Crystal) => Some("Frozen Cathedral"@),
        (Flavor::Crystal, Flavor::Neon) | (Flavor::Neon, Flavor::Crystal) => Some("Prism City"@),
        (Flavor::Void, Flavor::Crystal) | (Flavor::Crystal, Flavor::Void) => Some("Starfall Cavern"@),
        (Flavor::Void, Flavor::Neon) | (Flavor::Neon, Flavor::Void) => Some("Glitch Nebula"@),
        (Flavor::Ocean, Flavor::Void) | (Flavor::Void, Flavor::Ocean) => Some("Abyssal Void"@),
        (Flavor::Ocean, Flavor::Crystal) | (Flavor::Crystal, Flavor::Ocean) => Some("Sunken Cathedral"@),
        (Flavor::Desert, Flavor::Void) | (Flavor::Void, Flavor::Desert) => Some("Waste of Stars"@),
        (Flavor::Desert, Flavor::Arctic) | (Flavor::Arctic, Flavor::Desert) => Some("Frozen Wastes"@),
        _ => None,
    }
}

/// The name of a hybrid: its dedicated name, or the two short names
/// separated by a space.
pub open spec fn hybrid_name_spec(a: Flavor, b: Flavor) -> Seq<char> {
    match pair_name(a, b) {
        Some(n) => n,
        None => short_name(a) + seq![' '] + short_name(b),
    }
}

/// Every dedicated hybrid name is shared by both orders of its pair.
pub proof fn lemma_pair_name_symmetric(a: Flavor, b: Flavor)
    ensures
        pair_name(a, b) == pair_name(b, a),
{
}

/// The sixteen unordered pairs of flavours that have a name of their own:
/// Forest with Volcanic, Neon, Void and Arctic; Volcanic with Void, Desert
/// and Arctic; Ocean with Arctic, Void and Crystal; Crystal with Arctic, Neon
/// and Void; Void with Neon and Desert; Desert with Arctic.
pub open spec fn named_pair(a: Flavor, b: Flavor) -> bool {
    ||| (a == Flavor::Forest && b == Flavor::Volcanic) || (a == Flavor::Volcanic && b == Flavor::Forest)
    ||| (a == Flavor::Forest && b == Flavor::Neon) || (a == Flavor::Neon && b == Flavor::Forest)
    ||| (a == Flavor::Forest && b == Flavor::Void) || (a == Flavor::Void && b == Flavor::Forest)
    ||| (a == Flavor::Forest && b == Flavor::Arctic) || (a == Flavor::Arctic && b == Flavor::Forest)
    ||| (a == Flavor::Volcanic && b == Flavor::Void) || (a == Flavor::Void && b == Flavor::Volcanic)
    ||| (a == Flavor::Volcanic && b == Flavor::Desert) || (a == Flavor::Desert && b == Flavor::Volcanic)
    ||| (a == Flavor::Volcanic && b == Flavor::Arctic) || (a == Flavor::Arctic && b == Flavor::Volcanic)
    ||| (a == Flavor::Ocean && b == Flavor::Arctic) || (a == Flavor::Arctic && b == Flavor::Ocean)
    ||| (a == Flavor::Crystal && b == Flavor::Arctic) || (a == Flavor::Arctic && b == Flavor::Crystal)
    ||| (a == Flavor::Crystal && b == Flavor::Neon) || (a == Flavor::Neon && b == Flavor::Crystal)
    ||| (a == Flavor::Void && b == Flavor::Crystal) || (a == Flavor::Crystal && b == Flavor::Void)
    ||| (a == Flavor::Void && b == Flavor::Neon) || (a == Flavor::Neon && b == Flavor::Void)
    ||| (a == Flavor::Ocean && b == Flavor::Void) || (a == Flavor::Void && b == Flavor::Ocean)
    ||| (a == Flavor::Ocean && b == Flavor::Crystal) || (a == Flavor::Crystal && b == Flavor::Ocean)
    ||| (a == Flavor::Desert && b == Flavor::Void) || (a == Flavor::Void && b == Flavor::Desert)
    ||| (a == Flavor::Desert && b == Flavor::Arctic) || (a == Flavor::Arctic && b == Flavor::Desert)
}

/// The two short names joined by a space, in the order given.
pub open spec fn joined_short_names(a: Flavor, b: Flavor) -> Seq<char> {
    short_name(a) + seq![' '] + short_name(b)
}

/// A hybrid of two different flavours is named the same in either order
/// exactly when the pair has a name of its own; such a name is never the two
/// short names joined (in either order), and every other hybrid is named by
/// its two short names joined, in the order given.
pub proof fn lemma_hybrid_name_shape(a: Flavor, b: Flavor)
    ensures
        (hybrid_name_spec(a, b) == hybrid_name_spec(b, a)) <==> (a == b || named_pair(a, b)),
        named_pair(a, b) ==> hybrid_name_spec(a, b) != joined_short_names(a, b)
            && hybrid_name_spec(a, b) != joined_short_names(b, a),
        !named_pair(a, b) ==> hybrid_name_spec(a, b) == joined_short_names(a, b),
{
    reveal_strlit("Forest");
    reveal_strlit("Volcanic");
    reveal_strlit("Ocean");
    reveal_strlit("Crystal");
    reveal_strlit("Neon");
    reveal_strlit("Void");
    reveal_strlit("Desert");
    reveal_strlit("Arctic");
    reveal_strlit("Ember Grove");
    reveal_strlit("Neon Grove");
    reveal_strlit("Wraithwood");
    reveal_strlit("Frostpine");
    reveal_strlit("Ash Abyss");
    reveal_strlit("Charred Dunes");
    reveal_strlit("Steam Crags");
    reveal_strlit("Glacier Reef");
    reveal_strlit("Frozen Cathedral");
    reveal_strlit("Prism City");
    reveal_strlit("Starfall Cavern");
    reveal_strlit("Glitch Nebula");
    reveal_strlit("Abyssal Void");
    reveal_strlit("Sunken Cathedral");
    reveal_strlit("Waste of Stars");
    reveal_strlit("Frozen Wastes");
    let fa = joined_short_names(a, b);
    let fb = joined_short_names(b, a);
    assert(fa[0] == short_name(a)[0]);
    assert(fb[0] == short_name(b)[0]);
    let h = hybrid_name_spec(a, b);
    if named_pair(a, b) {
        assert(h.len() != fa.len() || h[0] != fa[0]);
        assert(h.len() != fb.len() || h[0] != fb[0]);
    }
}

/// Two named pairs with the same hybrid name are the same pair: no two
/// pairs share a name of their own.
pub proof fn lemma_pair_names_distinct(a: Flavor, b: Flavor, c: Flavor, d: Flavor)
    requires
        named_pair(a, b),
        named_pair(c, d),
        hybrid_name_spec(a, b) == hybrid_name_spec(c, d),
    ensures
        (a == c && b == d) || (a == d && b == c),
{
    reveal_strlit("Forest");
    reveal_strlit("Volcanic");
    reveal_strlit("Ocean");
    reveal_strlit("Crystal");
    reveal_strlit("Neon");
    reveal_strlit("Void");
    reveal_strlit("Desert");
    reveal_strlit("Arctic");
    reveal_strlit("Ember Grove");
    reveal_strlit("Neon Grove");
    reveal_strlit("Wraithwood");
    reveal_strlit("Frostpine");
    reveal_strlit("Ash Abyss");
    reveal_strlit("Charred Dunes");
    reveal_strlit("Steam Crags");
    reveal_strlit("Glacier Reef");
    reveal_strlit("Frozen Cathedral");
    reveal_strlit("Prism City");
    reveal_strlit("Starfall Cavern");
    reveal_strlit("Glitch Nebula");
    reveal_strlit("Abyssal Void");
    reveal_strlit("Sunken Cathedral");
    reveal_strlit("Waste of Stars");
    reveal_strlit("Frozen Wastes");
    let h = hybrid_name_spec(a, b);
    let g = hybrid_name_spec(c, d);
    assert(h.len() == g.len());
    assert(h[0] == g[0]);
    assert(h[1] == g[1]);
}

/// Byte-wise string equality, which is equality of the character sequences.
fn str_eq(a: &str, b: &str) -> (eq: bool)
    ensures
        eq == (a@ == b@),
{
    let x = a.as_bytes();
    let y = b.as_bytes();
    proof {
        vstd::utf8::encode_utf8_decode_utf8(a@);
        vstd::utf8::encode_utf8_decode_utf8(b@);
    }
    if x.len() != y.len() {
        return false;
    }
    let mut i: usize = 0;
    while i < x.len()
        invariant
            x@ == a.spec_bytes(),
            y@ == b.spec_bytes(),
            x@.len() == y@.len(),
            0 <= i <= x@.len(),
            forall|j: int| 0 <= j < i ==> x@[j] == y@[j],
        decreases x@.len() - i,
    {
        if x[i] != y[i] {
            return false;
        }
        i = i + 1;
    }
    assert(x@ =~= y@);
    true
}

/// Joins two names with a space between them.
fn join_with_space(a: &str, b: &str) -> (s: String)
    ensures
        s@ == a@ + seq![' '] + b@,
{
    let mut s = String::from_str(a);
    let space = " ";
    proof {
        reveal_strlit(" ");
    }
    s.append(space);
    s.append(b);
    s
}

impl Flavor {
    /// The flavour for an attractor name, or `None` for any other name.
    pub fn from_name(name: &str) -> (f: Option<Self>)
        ensures
            f == flavor_named(name@),
    {
        if str_eq(name, "Forest") {
            Some(Flavor::Forest)
        } else if str_eq(name, "Volcanic") {
            Some(Flavor::Volcanic)
        } else if str_eq(name, "Deep Ocean") {
            Some(Flavor::Ocean)
        } else if str_eq(name, "Crystal Cavern") {
            Some(Flavor::Crystal)
        } else if str_eq(name, "Neon City") {
            Some(Flavor::Neon)
        } else if str_eq(name, "Cosmic Void") {
            Some(Flavor::Void)
        } else if str_eq(name, "Desert") {
            Some(Flavor::Desert)
        } else if str_eq(name, "Arctic") {
            Some(Flavor::Arctic)
        } else {
            None
        }
    }

    /// The short name of this flavour.
    pub fn base_name(self) -> (n: &'static str)
        ensures
            n@ == short_name(self),
    {
        match self {
            Flavor::Forest => "Forest",
            Flavor::Volcanic => "Volcanic",
            Flavor::Ocean => "Ocean",
            Flavor::Crystal => "Crystal",
            Flavor::Neon => "Neon",
            Flavor::Void => "Void",
            Flavor::Desert => "Desert",
            Flavor::Arctic => "Arctic",
        }
    }
}

/// The display name of a two-flavour hybrid.
pub fn hybrid_name(a: Flavor, b: Flavor) -> (name: String)
    ensures
        name@ == hybrid_name_spec(a, b),
{
    match (a, b) {
        (Flavor::Forest, Flavor::Volcanic) => "Ember Grove".to_string(),
        (Flavor::Volcanic, Flavor::Forest) => "Ember Grove".to_string(),
        (Flavor::Forest, Flavor::Neon) => "Neon Grove".to_string(),
        (Flavor::Neon, Flavor::Forest) => "Neon Grove".to_string(),
        (Flavor::Forest, Flavor::Void) => "Wraithwood".to_string(),
        (Flavor::Void, Flavor::Forest) => "Wraithwood".to_string(),
        (Flavor::Forest, Flavor::Arctic) => "Frostpine".to_string(),
        (Flavor::Arctic, Flavor::Forest) => "Frostpine".to_string(),
        (Flavor::Volcanic, Flavor::Void) => "Ash Abyss".to_string(),
        (Flavor::Void, Flavor::Volcanic) => "Ash Abyss".to_string(),
        (Flavor::Volcanic, Flavor::Desert) => "Charred Dunes".to_string(),
        (Flavor::Desert, Flavor::Volcanic) => "Charred Dunes".to_string(),
        (Flavor::Volcanic, Flavor::Arctic) => "Steam Crags".to_string(),
        (Flavor::Arctic, Flavor::Volcanic) => "Steam Crags".to_string(),
        (Flavor::Ocean, Flavor::Arctic) => "Glacier Reef".to_string(),
        (Flavor::Arctic, Flavor::Ocean) => "Glacier Reef".to_string(),
        (Flavor::Crystal, Flavor::Arctic) => "Frozen Cathedral".to_string(),
        (Flavor::Arctic, Flavor::Crystal) => "Frozen Cathedral".to_string(),
        (Flavor::Crystal, Flavor::Neon) => "Prism City".to_string(),
        (Flavor::Neon, Flavor::Crystal) => "Prism City".to_string(),
        (Flavor::Void, Flavor::Crystal) => "Starfall Cavern".to_string(),
        (Flavor::Crystal, Flavor::Void) => "Starfall Cavern".to_string(),
        (Flavor::Void, Flavor::Neon) => "Glitch Nebula".to_string(),
        (Flavor::Neon, Flavor::Void) => "Glitch Nebula".to_string(),
        (Flavor::Ocean, Flavor::Void) => "Abyssal Void".to_string(),
        (Flavor::Void, Flavor::Ocean) => "Abyssal Void".to_string(),
        (Flavor::Ocean, Flavor::Crystal) => "Sunken Cathedral".to_string(),
        (Flavor::Crystal, Flavor::Ocean) => "Sunken Cathedral".to_string(),
        (Flavor::Desert, Flavor::Void) => "Waste of Stars".to_string(),
        (Flavor::Void, Flavor::Desert) => "Waste of Stars".to_string(),
        (Flavor::Desert, Flavor::Arctic) => "Frozen Wastes".to_string(),
        (Flavor::Arctic, Flavor::Desert) => "Frozen Wastes".to_string(),
        _ => join_with_space(a.base_name(), b.base_name()),
    }
}

} // verus!
