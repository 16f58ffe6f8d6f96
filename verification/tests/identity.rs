use colophon::identity::{
    check_char, verify, Id, IdentityPolicy, Minter, NoIdentity, Registration, Trigger, BLADE_LEN,
};

#[test]
fn no_identity_is_off() {
    assert!(!NoIdentity.registration().is_active());
}

#[test]
fn lazy_registers_on_link_and_publish_only() {
    let r = Minter::lazy(1).registration();
    assert!(!r.fires_on(Trigger::Create));
    assert!(r.fires_on(Trigger::Link));
    assert!(r.fires_on(Trigger::Publish));
}

#[test]
fn eager_registers_on_create() {
    assert!(Minter::eager(1).registration().fires_on(Trigger::Create));
}

#[test]
fn mints_verified_distinct_opaque_ids() {
    let mut p = Minter::eager(42);
    let a = p.mint("a.md");
    let b = p.mint("b.md");
    assert_ne!(a, b);
    for id in [&a, &b] {
        assert_eq!(id.as_str().len(), BLADE_LEN);
        assert!(verify(id.as_str()), "{id:?}");
    }
}

#[test]
fn same_seed_is_deterministic() {
    let a = Minter::lazy(7).mint("x");
    let b = Minter::lazy(7).mint("y");
    assert_eq!(a, b, "path does not participate in the mint");
}

#[test]
fn verify_rejects_typos() {
    let id = Minter::lazy(3).mint("x").0;
    assert!(verify(&id));
    // Flip one body character to another alphabet character.
    let mut chars: Vec<char> = id.chars().collect();
    chars[0] = if chars[0] == 'b' { 'c' } else { 'b' };
    let typo: String = chars.iter().collect();
    assert!(!verify(&typo), "{typo}");
    // Wrong length, wrong alphabet.
    assert!(!verify("bcd"));
    assert!(!verify("aeiouAy"));
}

#[test]
fn check_char_matches_the_ark_lineage() {
    // Independently computed: ordinals b=0,c=1,d=2,f=3,g=4,h=5 weighted by
    // position 1..=6 → 0+2+6+12+20+30 = 70; 70 % 28 = 14 → ALPHABET[14] = 't'.
    assert_eq!(check_char("bcdfgh"), 't');
}

#[test]
fn minting_follows_the_generator() {
    let mut p = Minter::lazy(42);
    assert_eq!(p.mint("a").as_str(), "b29r4b9");
    assert_eq!(p.mint("a").as_str(), "yk7fbqx");
    // The generator's fixed point is never its state.
    let mut zero = Minter::eager(0);
    assert_eq!(zero.mint("a").as_str(), "6wq2wqk");
    assert_eq!(zero.mint("a").as_str(), "t37fmyq");
}

#[test]
fn a_custom_trigger_set_is_kept() {
    let r = Registration { on_create: false, on_link: false, on_publish: true };
    let p = Minter::with(r, 1);
    assert_eq!(p.registration(), r);
    assert!(r.is_active());
    assert!(r.fires_on(Trigger::Publish));
    assert!(!r.fires_on(Trigger::Link));
    assert!(!Registration::off().is_active());
    assert_ne!(Registration::lazy(), Registration::eager());
}

#[test]
fn no_identity_mints_nothing() {
    assert_eq!(NoIdentity.mint("a"), Id(String::new()));
}

fn with_char(id: &str, at: usize, c: char) -> String {
    let mut chars: Vec<char> = id.chars().collect();
    chars[at] = c;
    chars.iter().collect()
}

#[test]
fn every_replacement_at_an_odd_position_is_detected() {
    let id = Minter::lazy(7).mint("x").0;
    for at in [0usize, 2, 4, 6] {
        for c in "bcdfghjkmnpqrstvwxyz23456789".chars() {
            let typo = with_char(&id, at, c);
            assert_eq!(verify(&typo), typo == id, "{typo}");
        }
    }
}

#[test]
fn a_replacement_can_slip_through_at_an_even_position() {
    // At the second position ordinals that differ by 14 weigh the same.
    assert_eq!(check_char("bbbbbb"), 'b');
    assert_eq!(check_char("btbbbb"), 'b');
    assert!(verify("bbbbbbb"));
    assert!(verify("btbbbbb"));
}

#[test]
fn swapped_neighbours_are_detected() {
    let id = "bcdfght";
    assert!(verify(id));
    let chars: Vec<char> = id.chars().collect();
    for at in 0..5usize {
        let mut swapped = chars.clone();
        swapped.swap(at, at + 1);
        let typo: String = swapped.iter().collect();
        assert!(!verify(&typo), "{typo}");
    }
}
