use zhhz::engine::Region::{CnHk, CnS, CnT, CnTw, JpN, JpT};
use zhhz::engine::{region_pair_config, Config, Region};

#[test]
fn region_parse_roundtrip() {
    for r in Region::ALL {
        assert_eq!(Region::parse(r.code()).unwrap(), r);
    }
    assert!(Region::parse("xx").is_err());
}

#[test]
fn region_pairs_mainline() {
    assert_eq!(region_pair_config(CnS, CnT).unwrap(), Config::S2t);
    assert_eq!(region_pair_config(CnT, CnS).unwrap(), Config::T2s);
    assert_eq!(region_pair_config(CnS, CnTw).unwrap(), Config::S2twp);
    assert_eq!(region_pair_config(CnTw, CnS).unwrap(), Config::Tw2sp);
    assert_eq!(region_pair_config(CnS, CnHk).unwrap(), Config::S2hkp);
    assert_eq!(region_pair_config(CnHk, CnS).unwrap(), Config::Hk2sp);
    assert_eq!(region_pair_config(CnT, CnTw).unwrap(), Config::T2tw);
    assert_eq!(region_pair_config(CnTw, CnT).unwrap(), Config::Tw2t);
    assert_eq!(region_pair_config(CnT, CnHk).unwrap(), Config::T2hk);
    assert_eq!(region_pair_config(CnHk, CnT).unwrap(), Config::Hk2t);
    assert_eq!(region_pair_config(JpN, JpT).unwrap(), Config::Jp2t);
    assert_eq!(region_pair_config(JpT, JpN).unwrap(), Config::T2jp);
}

#[test]
fn region_pair_identity_errors() {
    for r in Region::ALL {
        assert!(region_pair_config(r, r).is_err());
    }
}

#[test]
fn region_pair_no_direct_errors() {
    assert!(region_pair_config(Region::CnS, Region::JpN).is_err());
}

#[test]
fn region_pair_messages() {
    assert_eq!(
        region_pair_config(Region::CnTw, Region::CnTw).unwrap_err(),
        "no conversion needed: cn-tw -> cn-tw"
    );
    assert_eq!(
        region_pair_config(Region::CnS, Region::JpN).unwrap_err(),
        "no direct conversion from 'cn-s' to 'jp-n'; try an intermediate (e.g. cn-s -> cn-t -> jp-n)"
    );
    assert_eq!(region_pair_config(Region::JpN, Region::CnT).unwrap(), Config::Jp2t);
    assert_eq!(region_pair_config(Region::CnT, Region::JpN).unwrap(), Config::T2jp);
}

#[test]
fn config_parse_roundtrip() {
    for c in Config::ALL {
        assert_eq!(Config::parse(c.name()).unwrap(), c);
    }
    assert_eq!(
        Config::parse("s2x").unwrap_err(),
        "unknown config 's2x'. Valid: s2t, t2s, s2tw, tw2s, s2hk, hk2s, s2twp, tw2sp, s2hkp, hk2sp, t2tw, tw2t, t2hk, hk2t, t2jp, jp2t"
    );
}

#[test]
fn region_parse_message() {
    assert_eq!(
        Region::parse("CN-S").unwrap_err(),
        "unknown region 'CN-S'. Valid: cn-s, cn-t, cn-tw, cn-hk, jp-t, jp-n"
    );
}

#[test]
fn descriptions() {
    assert_eq!(Config::S2twp.description(), "Simplified to Traditional (Taiwan, with phrases)");
    assert_eq!(Config::Jp2t.description(), "Japanese Shinjitai (new) to Kyūjitai (old)");
    assert_eq!(Region::CnHk.description(), "Traditional Chinese (Hong Kong standard)");
    assert_eq!(Config::Tw2sp.name(), "tw2sp");
    assert_eq!(Region::JpN.code(), "jp-n");
}
