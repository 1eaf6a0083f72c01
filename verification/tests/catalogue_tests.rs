use order_processor::catalog::{
    catalogue_of, catalogue_with_recovery, code_to_stickers_map, find_group, group_by_code, needed_amount, shades_of,
    split_orders, Shade,
};
use order_processor::configs::{
    parse_millionths, parse_settings, split_setting, SettingsError,
};
use order_processor::excel::{
    extract_orders, find_keyword_cell, find_row_keyword_in_same_row, get_text_from_cell,
    get_u64_from_cell, number_of, parse_orders, Cell, OrderListError,
};
use order_processor::parser::{
    design_name, has_design_extension,
    extract_code, extract_color, extract_description, extract_dimensions, extract_material,
    parse_names, split_at_dimensions, try_infering_code_by_description_similiarity_measure,
};
use order_processor::similarity::{
    are_similar, is_within_bound, SimilarityBound, DEFAULT_ERROR_OUTPUT_MILLIONTHS,
    DEFAULT_INFERRING_MILLIONTHS,
};
use order_processor::structs::color::Color;
use order_processor::structs::dimensions::{canonicalize, is_official, Dimensions};
use order_processor::structs::material::Material;
use order_processor::structs::order::Order;
use order_processor::structs::parse_stcker_error::{ErrorKind, ParseStickerError};
use order_processor::structs::sticker::Sticker;

fn size(w: u32, h: u32) -> Dimensions {
    Dimensions { width: w, height: h }
}

#[test]
fn round_trip_of_a_built_name() {
    let materials = vec![
        Material::Paper,
        Material::PaperGR,
        Material::PVC,
        Material::PVCR,
        Material::PVCRSLV,
        Material::LEAFLET,
    ];
    let colors = vec![
        ("", Color::Black),
        ("_RED", Color::Red),
        ("_GREEN", Color::Green),
        ("_BLUE", Color::Blue),
        ("_BLACK", Color::Black),
    ];
    let sizes = vec![size(60, 40), size(10, 320), size(50, 50), size(130, 450)];
    for material in &materials {
        for (word, color) in &colors {
            for d in &sizes {
                let name = format!(
                    "{}_{}_{}X{}_{}{}",
                    234191,
                    "AV CLEAN GEL TUBE 200ML",
                    d.width,
                    d.height,
                    material.label(),
                    word
                );
                let found = Sticker::parse_stickers(&name).unwrap();
                assert_eq!(found.len(), 1, "{}", name);
                assert_eq!(found[0].code, 234191);
                assert_eq!(found[0].description, "AV CLEAN GEL TUBE 200ML");
                assert_eq!(found[0].dimensions, *d);
                assert_eq!(found[0].material, *material, "{}", name);
                assert_eq!(found[0].text_color, *color, "{}", name);
                assert_eq!(found[0].full_name, name);
            }
        }
    }
}

#[test]
fn either_orientation_gives_the_listed_size() {
    assert_eq!(canonicalize(60, 40), Some(size(60, 40)));
    assert_eq!(canonicalize(40, 60), Some(size(60, 40)));
    assert_eq!("60x40".parse::<Dimensions>(), "40X60".parse::<Dimensions>());
    assert_eq!(Dimensions::parse("40x60"), Some(size(60, 40)));
    assert_eq!(extract_dimensions("40X60_PVC"), vec![size(60, 40)]);
    assert_eq!(extract_dimensions("60X40_PVC"), vec![size(60, 40)]);
}

#[test]
fn unlisted_and_empty_sizes_are_rejected() {
    assert_eq!(canonicalize(45, 102), None);
    assert_eq!(canonicalize(102, 45), None);
    assert_eq!(canonicalize(0, 40), None);
    assert_eq!(canonicalize(60, 0), None);
    assert!("45x102".parse::<Dimensions>().is_err());
    assert!("0x40".parse::<Dimensions>().is_err());
    assert!("60".parse::<Dimensions>().is_err());
    assert!("60x".parse::<Dimensions>().is_err());
    assert!("x40".parse::<Dimensions>().is_err());
    assert_eq!(" 60x40\t".parse::<Dimensions>(), Ok(size(60, 40)));
    assert!("60 x40".parse::<Dimensions>().is_err());
    assert!("99999999999x40".parse::<Dimensions>().is_err());
    assert!(is_official(60, 40));
    assert!(!is_official(40, 60));
    assert_eq!(size(60, 40).rev(), size(40, 60));
    assert_eq!(size(60, 40).to_text(), "60x40");
}

#[test]
fn cyrillic_sign_stands_for_the_size_as_the_latin_one_does() {
    assert_eq!(extract_dimensions("60\u{425}40_PVC"), vec![size(60, 40)]);
    assert_eq!(extract_dimensions("40\u{425}60_50X30"), vec![size(60, 40), size(50, 30)]);
    let (before, after) = split_at_dimensions("7099_LRS_60\u{425}40_PVC").unwrap();
    assert_eq!(before, "7099_LRS_");
    assert_eq!(after, "60\u{425}40_PVC");
    let found = Sticker::parse_stickers("7099_LRS_50X30_60\u{425}40_PVC").unwrap();
    assert_eq!(found.len(), 2);
    assert_eq!(found[0].dimensions, size(50, 30));
    assert_eq!(found[1].dimensions, size(60, 40));
    assert_eq!(found[0].material, Material::PVC);
    assert_eq!("60\u{425}40".parse::<Dimensions>(), Ok(size(60, 40)));
    assert_eq!("60\u{445}40".parse::<Dimensions>(), Ok(size(60, 40)));
    assert_eq!(extract_dimensions("60x40_60\u{445}40"), Vec::<Dimensions>::new());
}

#[test]
fn a_size_on_its_own_takes_plus_signs_and_any_blank() {
    assert_eq!("+60x+40".parse::<Dimensions>(), Ok(size(60, 40)));
    assert_eq!("\u{a0}\u{2003}60X40\u{3000}\u{b}".parse::<Dimensions>(), Ok(size(60, 40)));
    assert!("++60x40".parse::<Dimensions>().is_err());
    assert!("+x40".parse::<Dimensions>().is_err());
    assert!("60x+".parse::<Dimensions>().is_err());
    assert!("-60x40".parse::<Dimensions>().is_err());
    assert!("60+x40".parse::<Dimensions>().is_err());
    assert_eq!(extract_dimensions("+60X+40"), Vec::<Dimensions>::new());
    assert_eq!(extract_dimensions("+60X40+"), vec![size(60, 40)]);
}

#[test]
fn one_material_fans_out_over_all_sizes() {
    let found = Sticker::parse_stickers("205475_RF VITALFAN_58X75_36X73_60X40_PAPER GREEN").unwrap();
    assert_eq!(found.len(), 3);
    assert_eq!(found[0].dimensions, size(58, 75));
    assert_eq!(found[1].dimensions, size(36, 73));
    assert_eq!(found[2].dimensions, size(60, 40));
    for s in &found {
        assert_eq!(s.code, 205475);
        assert_eq!(s.description, "RF VITALFAN");
        assert_eq!(s.material, Material::Paper);
        assert_eq!(s.text_color, Color::Green);
        assert_eq!(s.full_name, "205475_RF VITALFAN_58X75_36X73_60X40_PAPER GREEN");
    }
}

#[test]
fn materials_pair_with_sizes_when_counts_match() {
    let found = Sticker::parse_stickers("207687_AD HYDRALBA_70X40_PVC&40X45_PVC R_OK").unwrap();
    assert_eq!(found.len(), 2);
    assert_eq!(found[0].material, Material::PVC);
    assert_eq!(found[1].material, Material::PVCR);
    let spread = Sticker::assemble(
        1234,
        "D",
        &vec![size(60, 40), size(50, 30), size(50, 50)],
        &vec![Material::PVC, Material::Paper],
        Color::Red,
        "N",
    );
    assert_eq!(spread.len(), 3);
    assert_eq!(spread[0].material, Material::PVC);
    assert_eq!(spread[1].material, Material::PVC);
    assert_eq!(spread[2].material, Material::PVC);
    assert_eq!(spread[2].dimensions, size(50, 50));
    assert_eq!(spread[2].text_color, Color::Red);
}

#[test]
fn code_is_a_leading_run_of_three_digits_or_more() {
    assert_eq!(extract_code("7099_LRS").unwrap(), 7099);
    assert_eq!(extract_code("007_LRS").unwrap(), 7);
    assert_eq!(extract_code("123").unwrap(), 123);
    assert_eq!(extract_code("18446744073709551615 X").unwrap(), u64::MAX);
    assert!(extract_code("18446744073709551616 X").is_err());
    assert!(extract_code("12_LRS").is_err());
    assert!(extract_code("_123").is_err());
    assert!(extract_code("123A_LRS").is_err());
    assert!(extract_code("FACE WASH").is_err());
    assert!(extract_code("").is_err());
    let e = extract_code("AV CLEAN").unwrap_err();
    assert_eq!(e.kind(), ErrorKind::MissingCode);
    assert_eq!(e.get_description(), "AV CLEAN");
}

#[test]
fn a_letter_of_any_script_behind_the_digits_spoils_the_code() {
    assert!(extract_code("7099\u{416}_LRS").is_err());
    assert!(extract_code("7099\u{663}_LRS").is_err());
    assert_eq!(extract_code("7099\u{2014}LRS").unwrap(), 7099);
    assert_eq!(extract_code("7099 \u{416}").unwrap(), 7099);
}

#[test]
fn stages_fail_in_order() {
    let e = Sticker::parse_stickers("AB_NOTHING").unwrap_err();
    assert_eq!(e.kind(), ErrorKind::MissingCode);
    let e = Sticker::parse_stickers("7099_LRS_45X102_PVC").unwrap_err();
    assert_eq!(e.kind(), ErrorKind::MissingDimensions);
    assert_eq!(e.get_description(), "7099_LRS_45X102_PVC");
    let e = Sticker::parse_stickers("7099_60X40_PVC").unwrap_err();
    assert_eq!(e.kind(), ErrorKind::MissingDescription);
    assert_eq!(e.get_description(), "7099_60X40_PVC");
    let e = Sticker::parse_stickers("7099_LRS_60X40_CARTON").unwrap_err();
    assert_eq!(e.kind(), ErrorKind::MissingMaterial);
    assert_eq!(e.get_description(), "7099_LRS_60X40_CARTON");
    assert_eq!(e.summary(), "Missing material");
}

#[test]
fn split_cuts_at_the_first_approved_size() {
    let (before, after) = split_at_dimensions("7099_BOX 3X50ML_60X40_50X30_PVC").unwrap();
    assert_eq!(before, "7099_BOX 3X50ML_");
    assert_eq!(after, "60X40_50X30_PVC");
    let e = split_at_dimensions("7099_BOX 3X50ML").unwrap_err();
    assert_eq!(e.kind(), ErrorKind::MissingDimensions);
}

#[test]
fn description_is_trimmed_and_takes_qualifiers() {
    assert_eq!(extract_description(("7099_ LRS GEL _", "60X40_PVC"), 7099).unwrap(), "LRS GEL");
    assert_eq!(
        extract_description(("7099_LRS_", "60X40_PVC_PROMO"), 7099).unwrap(),
        "LRS PROMO"
    );
    assert_eq!(
        extract_description(("7099_LRS_", "60X40_TESTER_PVC_PROMO"), 7099).unwrap(),
        "LRS PROMO TESTER"
    );
    assert_eq!(extract_description(("007099_LRS_", "60X40"), 7099).unwrap(), "LRS");
    let e = extract_description(("7099_ _", "60X40_PVC"), 7099).unwrap_err();
    assert_eq!(e.kind(), ErrorKind::MissingDescription);
    assert_eq!(e.get_description(), "7099_ _60X40_PVC");
    assert!(extract_description(("LRS_", "60X40_PVC"), 7099).is_err());
}

#[test]
fn material_is_the_longest_word_of_the_stretch() {
    assert_eq!(extract_material("_PVC_R_SLV_OK_PF", "N").unwrap(), Material::PVCRSLV);
    assert_eq!(extract_material("_PVC_R_OK", "N").unwrap(), Material::PVCR);
    assert_eq!(extract_material("PVC", "N").unwrap(), Material::PVC);
    assert_eq!(extract_material("PVC_REGULAR", "N").unwrap(), Material::PVC);
    assert_eq!(extract_material("PAPER(GR)BLK", "N").unwrap(), Material::PaperGR);
    assert_eq!(extract_material("PAPER GREEN", "N").unwrap(), Material::Paper);
    assert_eq!(extract_material("PP_", "N").unwrap(), Material::Paper);
    assert_eq!(extract_material("SLV", "N").unwrap(), Material::PVCRSLV);
    assert_eq!(extract_material("LEAFLET", "N").unwrap(), Material::LEAFLET);
    assert_eq!(extract_material("PVC_PAPER GR", "N").unwrap(), Material::PaperGR);
    assert_eq!(extract_material("PAPER_PVC R", "N").unwrap(), Material::Paper);
    assert_eq!(extract_material("PP_PVC R", "N").unwrap(), Material::PVCR);
    assert_eq!(extract_material("PVC_SLV_X", "N").unwrap(), Material::PVCRSLV);
    assert_eq!(extract_material("SLV_PVC_X", "N").unwrap(), Material::PVC);
    assert_eq!(extract_material("STPVCOK", "N").unwrap(), Material::PVC);
    assert_eq!(extract_material("PDVVC", "N").unwrap(), Material::PVC);
}

#[test]
fn material_fails_where_the_stretch_has_no_word() {
    let e = extract_material("_CARTON_", "7099_CARTON").unwrap_err();
    assert_eq!(e.kind(), ErrorKind::MissingMaterial);
    assert_eq!(e.get_description(), "7099_CARTON");
    assert!(extract_material("PVCX", "N").is_err());
    assert!(extract_material("XPAPERX", "N").is_err());
    assert_eq!(extract_material("_CARTON_", "7099_LEAFLET_X").unwrap(), Material::LEAFLET);
    let e = extract_material("_pvc r_", "N").unwrap_err();
    assert_eq!(e.kind(), ErrorKind::UnknownMaterial);
    assert_eq!(e.get_description(), "pvc r");
}

#[test]
fn material_and_color_words_are_read_back() {
    assert_eq!("PAPER GR".parse::<Material>().unwrap(), Material::PaperGR);
    assert_eq!("PVC R SLV".parse::<Material>().unwrap(), Material::PVCRSLV);
    assert_eq!("PVC R".parse::<Material>().unwrap(), Material::PVCR);
    assert_eq!("PVC".parse::<Material>().unwrap(), Material::PVC);
    assert_eq!("PAPER".parse::<Material>().unwrap(), Material::Paper);
    assert_eq!("LEAFLET".parse::<Material>().unwrap(), Material::LEAFLET);
    let e = "WOOD".parse::<Material>().unwrap_err();
    assert_eq!(e.kind(), ErrorKind::UnknownMaterial);
    assert_eq!(e.get_description(), "WOOD");
    assert_eq!("RED".parse::<Color>().unwrap(), Color::Red);
    assert_eq!("BLK".parse::<Color>().unwrap(), Color::Black);
    let e = "PINK".parse::<Color>().unwrap_err();
    assert_eq!(e.kind(), ErrorKind::UnknownColor);
    assert_eq!(e.get_description(), "PINK");
    assert_eq!(e.summary(), "Unknown color");
    assert_eq!(Color::default(), Color::Black);
    assert_eq!(Material::PVCRSLV.label(), "PVC R SLV");
    assert_eq!(Material::LEAFLET.group(), "PAPER");
    assert_eq!(Material::PVCR.group(), "PVC");
    assert_eq!(Color::Green.label(), "Green");
}

#[test]
fn color_is_the_first_keyword_and_black_by_default() {
    assert_eq!(extract_color("60X40_PAPER GREEN_RED"), Some(Color::Green));
    assert_eq!(extract_color("60X40_PAPER_BLK"), Some(Color::Black));
    assert_eq!(extract_color("60X40_PAPER_BLACK"), Some(Color::Black));
    assert_eq!(extract_color("60X40_PAPER_BLUE"), Some(Color::Blue));
    assert_eq!(extract_color("60X40_PAPER"), None);
    assert_eq!(extract_color("60X40_PAPER_red_BLUE"), Some(Color::Red));
    assert_eq!(extract_color("60x40_paper green"), Some(Color::Green));
    assert_eq!(extract_color("60x40_paper Blk"), Some(Color::Black));
    assert_eq!(extract_color("60x40_paper bLuE"), Some(Color::Blue));
    assert_eq!(extract_color("60x40_paper black"), Some(Color::Black));
    assert_eq!(extract_color("60x40_paper gre en"), None);
    let lower = Sticker::parse_stickers("7099_LRS_60X40_PAPER green").unwrap();
    assert_eq!(lower[0].text_color, Color::Green);
    let found = Sticker::parse_stickers("7099_LRS_60X40_PAPER").unwrap();
    assert_eq!(found[0].text_color, Color::Black);
}

#[test]
fn names_are_read_one_by_one() {
    let names = vec![
        "7099_LRS_60X40_PVC".to_string(),
        "NOTHING".to_string(),
        "7100_LRS_60X40_50X30_PAPER".to_string(),
    ];
    let outcomes = parse_names(&names);
    assert_eq!(outcomes.len(), 3);
    assert_eq!(outcomes[0].as_ref().unwrap().len(), 1);
    assert_eq!(outcomes[1].as_ref().unwrap_err().kind(), ErrorKind::MissingCode);
    assert_eq!(outcomes[2].as_ref().unwrap().len(), 2);
}

#[test]
fn similarity_is_held_against_the_bound_exactly() {
    let bound = SimilarityBound::new(930_000);
    assert!(is_within_bound(2, 39, 39, bound));
    assert!(!is_within_bound(3, 39, 37, bound));
    assert!(is_within_bound(0, 0, 0, bound));
    assert!(!is_within_bound(0, 0, 0, SimilarityBound::new(1_000_001)));
    assert!(is_within_bound(7, 100, 3, bound));
    assert!(!is_within_bound(8, 100, 3, bound));
    assert!(!is_within_bound(5, 3, 4, SimilarityBound::new(1)));
    assert!(is_within_bound(4, 3, 4, SimilarityBound::new(0)));
    assert!(is_within_bound(0, 5, 5, SimilarityBound::new(1_000_000)));
    assert!(!is_within_bound(1, 5, 5, SimilarityBound::new(1_000_000)));
}

#[test]
fn edit_distance_decides_likeness() {
    assert!(are_similar("kitten", "sitting", SimilarityBound::new(571_428)));
    assert!(!are_similar("kitten", "sitting", SimilarityBound::new(571_429)));
    assert!(are_similar("same", "same", SimilarityBound::new(1_000_000)));
    assert!(!are_similar("same", "sane", SimilarityBound::new(1_000_000)));
    assert!(are_similar("", "", SimilarityBound::new(1_000_000)));
}

#[test]
fn recovery_leaves_other_failures_alone() {
    let pool = Sticker::parse_stickers("234191_AV CLEAN GEL_50X50_PVC").unwrap();
    let bound = SimilarityBound::new(930_000);
    let other = ParseStickerError::MissingMaterial("234191_AV CLEAN GEL_50X50".to_string());
    let e = try_infering_code_by_description_similiarity_measure(&other, &pool, bound).unwrap_err();
    assert_eq!(e.kind(), ErrorKind::MissingMaterial);
    assert_eq!(e.get_description(), "234191_AV CLEAN GEL_50X50");
    let sizeless = ParseStickerError::MissingCode("AV CLEAN GEL_PVC".to_string());
    let e = try_infering_code_by_description_similiarity_measure(&sizeless, &pool, bound)
        .unwrap_err();
    assert_eq!(e.kind(), ErrorKind::MissingCode);
    assert_eq!(e.get_description(), "AV CLEAN GEL_PVC");
    let e = try_infering_code_by_description_similiarity_measure(&sizeless, &[], bound)
        .unwrap_err();
    assert_eq!(e.kind(), ErrorKind::MissingCode);
    let unlike = ParseStickerError::MissingCode("FACE WASH_50X50_PVC".to_string());
    let e = try_infering_code_by_description_similiarity_measure(&unlike, &pool, bound)
        .unwrap_err();
    assert_eq!(e.kind(), ErrorKind::MissingCode);
    assert_eq!(e.get_description(), "FACE WASH_50X50_PVC");
    let no_material = ParseStickerError::MissingCode("AV CLEAN GEL_50X50_CARTON".to_string());
    let e = try_infering_code_by_description_similiarity_measure(&no_material, &pool, bound)
        .unwrap_err();
    assert_eq!(e.kind(), ErrorKind::MissingCode);
}

#[test]
fn recovery_takes_the_code_of_every_like_record_in_pool_order() {
    let mut pool = Sticker::parse_stickers("234191_AV CLEAN GEL TUBE_50X50_PVC").unwrap();
    pool.extend(Sticker::parse_stickers("111222_BODY LOTION_50X50_PVC").unwrap());
    pool.extend(Sticker::parse_stickers("100200_AV CLEAN GEL TUBA_50X50_PVC").unwrap());
    let error = ParseStickerError::MissingCode("AV CLEAN GEL TUBE_60X40_50X30_PAPER RED".to_string());
    let found = try_infering_code_by_description_similiarity_measure(
        &error,
        &pool,
        SimilarityBound::new(900_000),
    )
    .unwrap();
    assert_eq!(found.len(), 4);
    assert_eq!(found[0].code, 234191);
    assert_eq!(found[1].code, 234191);
    assert_eq!(found[2].code, 100200);
    assert_eq!(found[3].code, 100200);
    assert_eq!(found[0].description, "AV CLEAN GEL TUBE");
    assert_eq!(found[0].dimensions, size(60, 40));
    assert_eq!(found[1].dimensions, size(50, 30));
    assert_eq!(found[0].material, Material::Paper);
    assert_eq!(found[0].text_color, Color::Red);
    assert_eq!(found[0].full_name, "234191_AV CLEAN GEL TUBE_60X40_50X30_PAPER RED");
}

#[test]
fn the_same_name_twice_gives_each_design_once() {
    let mut all = Sticker::parse_stickers("205475_RF VITALFAN_58X75_36X73_PAPER GREEN").unwrap();
    all.extend(Sticker::parse_stickers("205475_RF VITALFAN_58X75_36X73_PAPER GREEN").unwrap());
    all.extend(Sticker::parse_stickers("205475_RF VITALFAN _58X75_PAPER GREEN_OK").unwrap());
    let groups = group_by_code(&all);
    assert_eq!(groups.len(), 1);
    assert_eq!(groups[0].code, 205475);
    assert_eq!(groups[0].stickers.len(), 2);
    assert_eq!(groups[0].stickers[0].dimensions, size(58, 75));
    assert_eq!(groups[0].stickers[1].dimensions, size(36, 73));
    assert!(all[0] == all[4]);
    assert!(all[0] != all[1]);
    assert!(all[0].same_as(&all[2]));
}

#[test]
fn groups_ascend_by_code_and_keep_first_come_order() {
    let mut all = Sticker::parse_stickers("7100_B_50X30_PVC").unwrap();
    all.extend(Sticker::parse_stickers("7099_A_60X40_PVC").unwrap());
    all.extend(Sticker::parse_stickers("7100_A_50X50_PAPER").unwrap());
    all.extend(Sticker::parse_stickers("300_C_60X60_PVC").unwrap());
    let groups = group_by_code(&all);
    assert_eq!(groups.len(), 3);
    assert_eq!(groups[0].code, 300);
    assert_eq!(groups[1].code, 7099);
    assert_eq!(groups[2].code, 7100);
    assert_eq!(groups[2].stickers.len(), 2);
    assert_eq!(groups[2].stickers[0].description, "B");
    assert_eq!(groups[2].stickers[1].description, "A");
    assert_eq!(group_by_code(&Vec::new()).len(), 0);
}

#[test]
fn catalogue_marks_what_was_recovered() {
    let names = vec![
        "234191_AV CLEAN GEL TUBE 200ML + RANDOM LENGHT_50X50_PVC_R_OK_PF".to_string(),
        "AV CLEAN GEL TUBE 200ML + RANDOM LENGTH_60X60_PVC_R_OK_PF".to_string(),
        "FACE WASH FOAM FOR MEN_50X50_PVC_R_OK_PF".to_string(),
        "7099_LRS_45X102_PVC".to_string(),
        "7099_LRS_60X40_PVC".to_string(),
        "AV CLEAN GEL WITHOUT A SIZE_PVC".to_string(),
    ];
    let outcomes = parse_names(&names);
    let c = catalogue_with_recovery(&outcomes, SimilarityBound::new(930_000));
    assert_eq!(c.groups.len(), 2);
    assert_eq!(c.groups[0].code, 7099);
    assert_eq!(c.groups[1].code, 234191);
    assert_eq!(c.groups[1].stickers.len(), 2);
    assert_eq!(
        c.groups[1].stickers[0].description,
        "AV CLEAN GEL TUBE 200ML + RANDOM LENGHT"
    );
    assert_eq!(
        c.groups[1].stickers[1].description,
        "AV CLEAN GEL TUBE 200ML + RANDOM LENGTH !!!INFERRED!!!"
    );
    assert_eq!(c.groups[1].stickers[1].dimensions, size(60, 60));
    assert_eq!(c.failures.len(), 3);
    assert_eq!(c.failures[0].kind(), ErrorKind::MissingCode);
    assert_eq!(c.failures[0].get_description(), "FACE WASH FOAM FOR MEN_50X50_PVC_R_OK_PF");
    assert_eq!(c.failures[1].kind(), ErrorKind::MissingDimensions);
    assert_eq!(c.failures[2].kind(), ErrorKind::MissingCode);
    assert_eq!(c.failures[2].get_description(), "AV CLEAN GEL WITHOUT A SIZE_PVC");

    let plain = catalogue_of(&outcomes);
    assert_eq!(plain.groups.len(), 2);
    assert_eq!(plain.groups[1].stickers.len(), 1);
    assert_eq!(plain.failures.len(), 4);
}

#[test]
fn order_holds_what_it_is_given() {
    let o = Order::new(7099, 12, "LRS");
    assert_eq!(o.code, 7099);
    assert_eq!(o.amount, 12);
    assert_eq!(o.description, "LRS");
    let s = Sticker::new(1, "D", size(60, 40), Material::PVC, Color::Blue, "N".to_string());
    assert_eq!(s.duplicate(), s);
    assert_eq!(s.duplicate().full_name, "N");
}

#[test]
fn scenario_of_a_rigid_pvc_label() {
    let found = Sticker::parse_stickers("7099_LRS_XXX_60X40_PVC_R (2)").unwrap();
    assert_eq!(found.len(), 1);
    assert_eq!(found[0].code, 7099);
    assert_eq!(found[0].description, "LRS_XXX");
    assert_eq!(found[0].dimensions, size(60, 40));
    assert_eq!(found[0].material, Material::PVCR);
    assert_eq!(found[0].text_color, Color::Black);
}

#[test]
fn scenario_of_a_double_label() {
    let found = Sticker::parse_stickers(
        "205475_RF VITALFAN PROGR SINGLE 30K_58X75_36X73_PAPER GREEN_DVOEN STIKER_OK",
    )
    .unwrap();
    assert_eq!(found.len(), 2);
    assert_eq!(found[0].code, 205475);
    assert_eq!(found[1].code, 205475);
    assert_eq!(found[0].dimensions, size(58, 75));
    assert_eq!(found[1].dimensions, size(36, 73));
    assert_eq!(found[0].material, Material::Paper);
    assert_eq!(found[1].material, Material::Paper);
    assert_eq!(found[0].text_color, Color::Green);
    assert_eq!(found[1].text_color, Color::Green);
}

#[test]
fn orders_are_split_by_what_the_catalogue_holds() {
    let mut all = Sticker::parse_stickers("7100_B_50X30_PVC").unwrap();
    all.extend(Sticker::parse_stickers("7099_A_60X40_PVC").unwrap());
    let groups = group_by_code(&all);
    assert_eq!(find_group(&groups, 7099), Some(0));
    assert_eq!(find_group(&groups, 7100), Some(1));
    assert_eq!(find_group(&groups, 7101), None);
    let orders = vec![
        Order::new(7100, 5, "B"),
        Order::new(1, 6, "X"),
        Order::new(7099, 7, "A"),
        Order::new(2, 8, "Y"),
        Order::new(7100, 9, "B2"),
    ];
    let (found, missing) = split_orders(&orders, &groups);
    assert_eq!(found.len(), 3);
    assert_eq!(found[0].amount, 5);
    assert_eq!(found[1].amount, 7);
    assert_eq!(found[2].amount, 9);
    assert_eq!(missing.len(), 2);
    assert_eq!(missing[0].code, 1);
    assert_eq!(missing[1].code, 2);
}

#[test]
fn failure_texts() {
    let e = ParseStickerError::MissingCode("AV CLEAN 7099".to_string());
    assert_eq!(e.detail(), "Missing sticker code in: AV CLEAN 7099");
    assert_eq!(e.summary(), "Missing sticker code");
    assert!(e.mentions_code(7099));
    assert!(e.mentions_code(709));
    assert!(!e.mentions_code(7098));
    let e = ParseStickerError::MissingDimensions("N".to_string());
    assert_eq!(e.detail(), "Missing dimensions in: N");
    let e = ParseStickerError::MissingDescription("N".to_string());
    assert_eq!(e.detail(), "Missing description in: N");
    let e = ParseStickerError::UnknownMaterial("N".to_string());
    assert_eq!(e.detail(), "Unknown material in: N");
    assert_eq!(e.duplicate().kind(), ErrorKind::UnknownMaterial);
    assert_eq!(
        ParseStickerError::new(ErrorKind::UnknownColor, "N".to_string()).detail(),
        "Unknown color in: N"
    );
}

#[test]
fn default_bounds() {
    assert_eq!(DEFAULT_INFERRING_MILLIONTHS, 930_000);
    assert_eq!(DEFAULT_ERROR_OUTPUT_MILLIONTHS, 700_000);
    assert_eq!(SimilarityBound::new(DEFAULT_INFERRING_MILLIONTHS).millionths, 930_000);
}

fn text(s: &str) -> Cell {
    Cell::Text(s.to_string())
}

fn order_sheet() -> Vec<Vec<Cell>> {
    vec![
        vec![text("Orders of the week")],
        vec![],
        vec![
            Cell::Empty,
            text("FRENCH CODE"),
            text("Description of product"),
            text("Total pieces"),
        ],
        vec![Cell::Empty, Cell::Empty, text("spring")],
        vec![Cell::Empty, Cell::Number(7099), text("  LRS soap "), Cell::Number(12)],
        vec![Cell::Empty, text(" 7100 "), Cell::Number(3), text("40")],
        vec![Cell::Empty, text("n/a"), text("ignored"), Cell::Number(1)],
        vec![Cell::Empty, Cell::Number(7101), text("late"), Cell::Number(2)],
    ]
}

#[test]
fn orders_are_read_below_the_heading() {
    let orders = parse_orders(&order_sheet(), None).unwrap();
    assert_eq!(orders.len(), 2);
    assert_eq!(orders[0].code, 7099);
    assert_eq!(orders[0].amount, 12);
    assert_eq!(orders[0].description, "LRS soap");
    assert_eq!(orders[1].code, 7100);
    assert_eq!(orders[1].amount, 40);
    assert_eq!(orders[1].description, "");
}

#[test]
fn heading_cells_are_found_by_keyword() {
    let sheet = order_sheet();
    let codes = vec!["French code".to_string(), "Fr Code".to_string()];
    assert_eq!(find_keyword_cell(&sheet, 6, 40, &codes), Ok((2, 1)));
    assert_eq!(find_keyword_cell(&sheet, 1, 40, &codes), Err(OrderListError::KeywordNotFound));
    assert_eq!(find_keyword_cell(&sheet, 6, 2, &codes), Err(OrderListError::KeywordNotFound));
    let amounts = vec!["Order".to_string(), "Total".to_string()];
    assert_eq!(find_row_keyword_in_same_row(&sheet, 2, 10, &amounts), Ok((2, 3)));
    assert_eq!(find_row_keyword_in_same_row(&sheet, 0, 10, &amounts), Ok((0, 0)));
    assert_eq!(
        find_row_keyword_in_same_row(&sheet, 2, 3, &amounts),
        Err(OrderListError::RowKeywordNotFound)
    );
    let cyrillic = vec![vec![text("Френски КОД")]];
    assert_eq!(find_keyword_cell(&cyrillic, 6, 40, &vec!["френски код".to_string()]), Ok((0, 0)));
}

#[test]
fn order_list_failures() {
    let mut sheet = order_sheet();
    sheet[4][3] = text("many");
    assert_eq!(parse_orders(&sheet, None).unwrap_err(), OrderListError::InvalidAmount(4));
    sheet[2][3] = text("Pieces");
    assert_eq!(parse_orders(&sheet, None).unwrap_err(), OrderListError::RowKeywordNotFound);
    sheet[4][3] = Cell::Number(12);
    assert_eq!(parse_orders(&sheet, Some("pieces")).unwrap().len(), 2);
    sheet[2][2] = text("About");
    assert_eq!(parse_orders(&sheet, Some("pieces")).unwrap_err(), OrderListError::RowKeywordNotFound);
    sheet[2][1] = text("Code");
    assert_eq!(parse_orders(&sheet, Some("pieces")).unwrap_err(), OrderListError::KeywordNotFound);
    assert_eq!(parse_orders(&Vec::new(), None).unwrap_err(), OrderListError::KeywordNotFound);
}

#[test]
fn cells_are_read_as_numbers_and_texts() {
    assert_eq!(get_u64_from_cell(Some(&Cell::Number(5))), Some(5));
    assert_eq!(get_u64_from_cell(Some(&text(" 42\t"))), Some(42));
    assert_eq!(get_u64_from_cell(Some(&text("\u{a0}+42\u{2009}"))), Some(42));
    assert_eq!(get_u64_from_cell(Some(&text("+"))), None);
    assert_eq!(get_u64_from_cell(Some(&text("-42"))), None);
    assert_eq!(get_u64_from_cell(Some(&text("18446744073709551615"))), Some(u64::MAX));
    assert_eq!(get_u64_from_cell(Some(&text("18446744073709551616"))), None);
    assert_eq!(get_u64_from_cell(Some(&text("4 2"))), None);
    assert_eq!(get_u64_from_cell(Some(&text(""))), None);
    assert_eq!(get_u64_from_cell(Some(&Cell::Empty)), None);
    assert_eq!(get_u64_from_cell(None), None);
    assert_eq!(number_of("  7 "), Some(7));
    assert_eq!(get_text_from_cell(Some(&text("  a b \n"))), "a b");
    assert_eq!(get_text_from_cell(Some(&Cell::Number(1))), "");
    let rows = vec![
        vec![Cell::Empty, Cell::Number(1), Cell::Number(2), text("x")],
        vec![Cell::Number(3), Cell::Number(4), Cell::Number(5), text("y")],
        vec![Cell::Empty],
        vec![Cell::Number(6), Cell::Number(7), Cell::Number(8)],
    ];
    let orders = extract_orders(&rows, 0, 1, 3, 0).unwrap();
    assert_eq!(orders.len(), 1);
    assert_eq!(orders[0].code, 3);
    assert_eq!(orders[0].amount, 4);
    assert_eq!(orders[0].description, "y");
    assert_eq!(extract_orders(&rows, 0, 1, 3, 7).unwrap().len(), 0);
    assert_eq!(extract_orders(&rows, 0, 3, 1, 0).unwrap_err(), OrderListError::InvalidAmount(1));
}

#[test]
fn orders_need_their_amount_of_every_label_of_their_code() {
    let mut all = Sticker::parse_stickers("7100_B_50X30_60X40_PVC").unwrap();
    all.extend(Sticker::parse_stickers("7099_A_60X40_PVC_R").unwrap());
    all.extend(Sticker::parse_stickers("7098_C_60X40_PAPER").unwrap());
    let groups = group_by_code(&all);
    let orders = vec![
        Order::new(7100, 5, "B"),
        Order::new(1, 6, "X"),
        Order::new(7099, 7, "A"),
        Order::new(7098, 100, "C"),
        Order::new(7100, 9, "B2"),
    ];
    assert_eq!(needed_amount(&orders, &groups, true, size(60, 40)), 21);
    assert_eq!(needed_amount(&orders, &groups, true, size(50, 30)), 14);
    assert_eq!(needed_amount(&orders, &groups, false, size(60, 40)), 100);
    assert_eq!(needed_amount(&orders, &groups, false, size(50, 30)), 0);
    assert_eq!(needed_amount(&orders, &groups, true, size(40, 60)), 0);
    let many = vec![Order::new(7099, u64::MAX, "A"), Order::new(7099, 1, "A")];
    assert_eq!(needed_amount(&many, &groups, true, size(60, 40)), u64::MAX);
    assert!(Material::PVCRSLV.is_of_pvc());
    assert!(!Material::LEAFLET.is_of_pvc());
}

fn lines(texts: &[&str]) -> Vec<String> {
    texts.iter().map(|t| t.to_string()).collect()
}

fn chars(text: &str) -> Vec<char> {
    text.chars().collect()
}

#[test]
fn settings_are_read_line_by_line() {
    let s = parse_settings(&lines(&[
        "# settings",
        " archive = /data/archive ",
        "order=/data/old.xlsx",
        "order=/data/order=new.xlsx",
        "inferring_levenshtein_distance = 0.9",
        "unknown=1",
        "sheet_name=Orders",
    ]))
    .unwrap();
    assert_eq!(s.archive, "/data/archive");
    assert_eq!(s.order, "/data/order=new.xlsx");
    assert_eq!(s.sheet_name, Some("Orders".to_string()));
    assert_eq!(s.order_amount_column_name, None);
    assert_eq!(s.inferring.millionths, 900_000);
    assert_eq!(s.error_output.millionths, 700_000);
    let s = parse_settings(&lines(&["archive=a", "order=o", "order_amount_column_name= Pieces"]))
        .unwrap();
    assert_eq!(s.inferring.millionths, 930_000);
    assert_eq!(s.order_amount_column_name, Some("Pieces".to_string()));
}

#[test]
fn settings_failures() {
    assert_eq!(
        parse_settings(&lines(&["order=o"])).unwrap_err(),
        SettingsError::MissingArchive
    );
    assert_eq!(
        parse_settings(&lines(&["archive=a"])).unwrap_err(),
        SettingsError::MissingOrder
    );
    assert_eq!(parse_settings(&Vec::new()).unwrap_err(), SettingsError::MissingArchive);
    assert_eq!(
        parse_settings(&lines(&["inferring_levenshtein_distance=high", "archive=a"])).unwrap_err(),
        SettingsError::InvalidInferringBound
    );
    assert_eq!(
        parse_settings(&lines(&[
            "error_output_levenshtein_distance=",
            "inferring_levenshtein_distance=x"
        ]))
        .unwrap_err(),
        SettingsError::InvalidErrorOutputBound
    );
}

#[test]
fn bounds_are_read_as_decimal_numbers() {
    assert_eq!(parse_millionths(&chars("0.93")), Some(930_000));
    assert_eq!(parse_millionths(&chars("0.7")), Some(700_000));
    assert_eq!(parse_millionths(&chars("1")), Some(1_000_000));
    assert_eq!(parse_millionths(&chars("1.")), Some(1_000_000));
    assert_eq!(parse_millionths(&chars("0.123456789")), Some(123_456));
    assert_eq!(parse_millionths(&chars("0.000001")), Some(1));
    assert_eq!(parse_millionths(&chars("4294.967295")), Some(u32::MAX));
    assert_eq!(parse_millionths(&chars("4294.967296")), Some(u32::MAX));
    assert_eq!(parse_millionths(&chars("4295")), Some(u32::MAX));
    assert_eq!(parse_millionths(&chars(".5")), Some(500_000));
    assert_eq!(parse_millionths(&chars("5.")), Some(5_000_000));
    assert_eq!(parse_millionths(&chars("+0.93")), Some(930_000));
    assert_eq!(parse_millionths(&chars("1e-1")), Some(100_000));
    assert_eq!(parse_millionths(&chars("9.3E-1")), Some(930_000));
    assert_eq!(parse_millionths(&chars("0.93e0")), Some(930_000));
    assert_eq!(parse_millionths(&chars("93e-2")), Some(930_000));
    assert_eq!(parse_millionths(&chars(".0093e+2")), Some(930_000));
    assert_eq!(parse_millionths(&chars("123456e-6")), Some(123_456));
    assert_eq!(parse_millionths(&chars("123456e-12")), Some(0));
    assert_eq!(parse_millionths(&chars("0.0000009e1")), Some(9));
    assert_eq!(parse_millionths(&chars("1.5e1")), Some(15_000_000));
    assert_eq!(parse_millionths(&chars("1e+2")), Some(100_000_000));
    assert_eq!(parse_millionths(&chars("1e4")), Some(u32::MAX));
    assert_eq!(parse_millionths(&chars("1e99999999999999999999999")), Some(u32::MAX));
    assert_eq!(parse_millionths(&chars("1e-99999999999999999999999")), Some(0));
    assert_eq!(parse_millionths(&chars("0e99999999999999999999999")), Some(0));
    assert_eq!(parse_millionths(&chars("0.000e18446744073709551615")), Some(0));
    assert_eq!(parse_millionths(&chars("-0.5")), Some(0));
    assert_eq!(parse_millionths(&chars("-7e3")), Some(0));
    assert_eq!(parse_millionths(&chars("inf")), Some(u32::MAX));
    assert_eq!(parse_millionths(&chars("+Infinity")), Some(u32::MAX));
    assert_eq!(parse_millionths(&chars("-inf")), Some(0));
    assert_eq!(parse_millionths(&chars("NaN")), Some(u32::MAX));
    assert_eq!(parse_millionths(&chars("-nan")), Some(u32::MAX));
    assert_eq!(parse_millionths(&chars("infinit")), None);
    assert_eq!(parse_millionths(&chars(".")), None);
    assert_eq!(parse_millionths(&chars("+")), None);
    assert_eq!(parse_millionths(&chars("-.e1")), None);
    assert_eq!(parse_millionths(&chars("e5")), None);
    assert_eq!(parse_millionths(&chars("1e")), None);
    assert_eq!(parse_millionths(&chars("1e+")), None);
    assert_eq!(parse_millionths(&chars("1e5x")), None);
    assert_eq!(parse_millionths(&chars("1.2.3")), None);
    assert_eq!(parse_millionths(&chars("++1")), None);
    assert_eq!(parse_millionths(&chars("1 e5")), None);
    assert_eq!(parse_millionths(&chars("0.5x")), None);
    assert_eq!(parse_millionths(&chars("0,5")), None);
    assert_eq!(parse_millionths(&chars("")), None);
    assert_eq!(split_setting("a = b = c"), Some((chars("a"), chars("b = c"))));
    assert_eq!(split_setting("no sign"), None);
}

#[test]
fn design_files_are_named_in_upper_case() {
    assert_eq!(
        design_name("7099 _Lrs _нежен_60x40 _pvc"),
        Some("7099_LRS_НЕЖЕН_60X40_PVC".to_string())
    );
    assert_eq!(design_name("7099_lrs  _x"), Some("7099_LRS _X".to_string()));
    assert_eq!(design_name("Backup_of_7099_LRS"), None);
    assert_eq!(design_name("7099_LRS_backup"), None);
    assert!(has_design_extension("cdr"));
    assert!(has_design_extension("CDR"));
    assert!(has_design_extension("Cdr"));
    assert!(!has_design_extension("cd"));
    assert!(!has_design_extension("cdrx"));
    assert!(!has_design_extension("pdf"));
}

#[test]
fn orders_with_several_labels_are_banded_in_turn() {
    let mut all = Sticker::parse_stickers("7100_B_50X30_60X40_PVC").unwrap();
    all.extend(Sticker::parse_stickers("7099_A_60X40_PVC_R").unwrap());
    all.extend(Sticker::parse_stickers("7101_C_60X40_50X50_PAPER").unwrap());
    let groups = group_by_code(&all);
    let orders = vec![
        Order::new(7100, 1, ""),
        Order::new(7101, 1, ""),
        Order::new(5, 1, ""),
        Order::new(7100, 1, ""),
        Order::new(7099, 1, ""),
        Order::new(7101, 1, ""),
        Order::new(7100, 1, ""),
    ];
    assert_eq!(
        shades_of(&orders, &groups),
        vec![
            Shade::Silver,
            Shade::Lime,
            Shade::Plain,
            Shade::Silver,
            Shade::Plain,
            Shade::Silver,
            Shade::Lime,
        ]
    );
}

#[test]
fn the_catalogue_as_a_mapping_from_code_to_records() {
    let mut all = Sticker::parse_stickers("7100_B_50X30_60X40_PVC").unwrap();
    all.extend(Sticker::parse_stickers("7099_A_60X40_PVC_R").unwrap());
    all.extend(Sticker::parse_stickers("7100_B2_50X50_PAPER").unwrap());
    let map = code_to_stickers_map(&group_by_code(&all));
    assert_eq!(map.len(), 2);
    assert_eq!(map[&7099].len(), 1);
    assert_eq!(map[&7099][0].material, Material::PVCR);
    assert_eq!(map[&7100].len(), 3);
    assert_eq!(map[&7100][0].dimensions, size(50, 30));
    assert_eq!(map[&7100][1].dimensions, size(60, 40));
    assert_eq!(map[&7100][2].description, "B2");
    assert!(!map.contains_key(&7101));
    assert!(code_to_stickers_map(&Vec::new()).is_empty());
}

#[test]
fn keywords_fold_case_as_far_as_their_letters_have_one() {
    assert_eq!(extract_color("60X40_PAPER_BLAC\u{212a}"), Some(Color::Black));
    assert_eq!(extract_color("60X40_PAPER_bl\u{212a}"), Some(Color::Black));
    assert_eq!(extract_color("60X40_PAPER_R\u{415}D"), None);
    let e = extract_material("_\u{17f}LV_", "N").unwrap_err();
    assert_eq!(e.kind(), ErrorKind::UnknownMaterial);
    assert_eq!(e.get_description(), "\u{17f}LV");
    let e = extract_material("_\u{17f}AV_", "N").unwrap_err();
    assert_eq!(e.kind(), ErrorKind::MissingMaterial);
    assert!(!has_design_extension("\u{441}dr"));
}

#[test]
fn digits_of_other_scripts_are_no_digits() {
    assert_eq!(extract_dimensions("\u{666}0X40_PVC"), Vec::<Dimensions>::new());
    assert_eq!(extract_dimensions("6\u{660}X40_PVC"), Vec::<Dimensions>::new());
    assert!(extract_code("\u{661}\u{662}\u{663}_LRS").is_err());
    assert!("\u{666}\u{660}x40".parse::<Dimensions>().is_err());
}
