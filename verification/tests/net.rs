use qcmweb::net::{client_address, client_ip, forwarded_entry, parse_trusted_proxies, Address, Network};

fn v4(a: u8, b: u8, c: u8, d: u8) -> Address {
    Address::V4(u32::from_be_bytes([a, b, c, d]))
}

fn cidr(s: &str) -> Vec<Network> {
    parse_trusted_proxies(s).unwrap()
}

fn resolve(peer: Address, header: Option<&str>, trusted: &[Network]) -> Address {
    client_address(peer, header, trusted)
}

#[test]
fn sans_proxy_de_confiance_len_tete_est_ignore() {
    let peer = v4(203, 0, 113, 9);
    assert_eq!(
        resolve(peer, Some("1.2.3.4"), &[]),
        peer,
        "un client non déclaré de confiance ne doit pas pouvoir annoncer son IP"
    );
    assert_eq!(forwarded_entry(peer, Some("1.2.3.4"), &[]), None);
}

#[test]
fn proxy_de_confiance_len_tete_est_lu() {
    let peer = v4(172, 18, 0, 1);
    assert_eq!(
        resolve(peer, Some("198.51.100.7"), &cidr("172.16.0.0/12")),
        v4(198, 51, 100, 7)
    );
}

#[test]
fn chaine_forgee_la_derniere_valeur_prime() {
    // The client sends "1.2.3.4", the proxy appends its own peer.
    let peer = v4(172, 18, 0, 1);
    assert_eq!(
        forwarded_entry(peer, Some("1.2.3.4, 198.51.100.7"), &cidr("172.16.0.0/12")),
        Some("198.51.100.7")
    );
    assert_eq!(
        resolve(peer, Some("1.2.3.4, 198.51.100.7"), &cidr("172.16.0.0/12")),
        v4(198, 51, 100, 7),
        "la valeur ajoutée par le proxy de confiance doit primer sur la valeur forgée"
    );
}

#[test]
fn en_tete_absent_ou_illisible_retombe_sur_le_pair() {
    let peer = v4(172, 18, 0, 1);
    let trusted = cidr("172.16.0.0/12");
    assert_eq!(resolve(peer, None, &trusted), peer);
    assert_eq!(resolve(peer, Some("pas-une-ip"), &trusted), peer);
    assert_eq!(resolve(peer, Some(""), &trusted), peer);
    assert_eq!(forwarded_entry(peer, Some(""), &trusted), Some(""));
}

#[test]
fn appartenance_aux_reseaux() {
    let net = cidr("172.16.0.0/12")[0];
    assert_eq!(net, Network::V4 { addr: 0xAC10_0000, prefix: 12 });
    assert!(net.contains(v4(172, 16, 0, 0)));
    assert!(net.contains(v4(172, 31, 255, 255)));
    assert!(!net.contains(v4(172, 32, 0, 0)));
    assert!(!net.contains(v4(172, 15, 255, 255)));
    assert!(!net.contains(Address::V6(1)));
    let all = cidr("0.0.0.0/0")[0];
    assert!(all.contains(v4(8, 8, 8, 8)));
    let one = cidr("10.0.0.1/32")[0];
    assert!(one.contains(v4(10, 0, 0, 1)));
    assert!(!one.contains(v4(10, 0, 0, 2)));
    let six = cidr("fd00::/8")[0];
    assert!(six.contains(Address::V6(0xfd00_0000_0000_0000_0000_0000_0000_0001)));
    assert!(!six.contains(Address::V6(1)));
}

#[test]
fn liste_de_proxies() {
    assert_eq!(parse_trusted_proxies("").unwrap(), vec![]);
    assert_eq!(parse_trusted_proxies(" , ").unwrap(), vec![]);
    assert_eq!(parse_trusted_proxies("10.0.0.0/8, 192.168.0.0/16").unwrap().len(), 2);
    assert_eq!(
        parse_trusted_proxies("10.0.0.0/8, nimporte, 300.0.0.0/8"),
        Err("TRUSTED_PROXY_CIDRS : `nimporte` invalide (invalid IP address syntax)".to_string())
    );
    assert!(parse_trusted_proxies("10.0.0.1").is_err(), "un réseau porte son préfixe");
}

#[test]
fn un_pair_non_declare_est_le_client_quel_que_soit_len_tete() {
    let peer = v4(198, 51, 100, 7);
    let trusted = cidr("10.0.0.0/8");
    for header in [None, Some("1.2.3.4"), Some("10.0.0.1, 8.8.8.8"), Some("n'importe quoi")] {
        assert_eq!(forwarded_entry(peer, header, &trusted), None);
        assert_eq!(resolve(peer, header, &trusted), peer);
    }
}

#[test]
fn adresse_ipv6_et_espaces_de_lentree() {
    let peer = v4(172, 18, 0, 1);
    let trusted = cidr("172.16.0.0/12");
    assert_eq!(resolve(peer, Some("1.2.3.4,  2001:db8::1 "), &trusted), Address::V6(0x2001_0db8_0000_0000_0000_0000_0000_0001));
    assert_eq!(resolve(peer, Some("198.51.100.7 , 300.1.2.3"), &trusted), peer, "une dernière entrée illisible ne compte pas");
}

#[test]
fn adresse_rapportee_prioritaire_sur_le_pair() {
    assert_eq!(client_ip(v4(10, 0, 0, 1), Some(v4(192, 0, 2, 1))), v4(192, 0, 2, 1));
    assert_eq!(client_ip(v4(10, 0, 0, 1), None), v4(10, 0, 0, 1));
}
