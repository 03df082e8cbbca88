use reewal::config::Config;
use reewal::data::{build_palette, PaletteError};
use reewal::quantize::ColorCount;

type Rgb = (u8, u8, u8);

struct Scenario {
    template: [Rgb; 16],
    thresholds: (u16, u8, u16),
    weights: (u32, u32, u32),
    mix: (i8, i8, i8),
    tweak: (i8, i8, i8),
    candidates: &'static [(usize, Rgb)],
    palette: Option<[Option<Rgb>; 16]>,
}

fn check(s: &Scenario) {
    let mut config = Config::new();
    config.template_colors = s.template.to_vec();
    config.similarity = s.thresholds.0;
    config.vibrancy = s.thresholds.1;
    config.likeness = s.thresholds.2;
    config.hue_compare = s.weights.0;
    config.chroma_compare = s.weights.1;
    config.light_compare = s.weights.2;
    config.hue_mix = s.mix.0;
    config.saturation_mix = s.mix.1;
    config.light_mix = s.mix.2;
    config.hue_tweak = s.tweak.0;
    config.saturation_tweak = s.tweak.1;
    config.light_tweak = s.tweak.2;
    assert_eq!(config.validate(), Ok(()));
    let candidates: Vec<ColorCount> =
        s.candidates.iter().map(|&(count, rgb)| ColorCount { count, rgb }).collect();
    match build_palette(&candidates, &config) {
        Ok(palette) => assert_eq!(Some(palette), s.palette.map(|p| p.to_vec())),
        Err(PaletteError::NoAccentCandidate) => assert!(s.palette.is_none()),
    }
}

#[test]
fn scenario_00() {
    check(&Scenario {
        template: [(34, 34, 34), (48, 48, 48), (85, 85, 85), (137, 137, 137), (192, 192, 192), (255, 255, 255), (255, 255, 255), (176, 176, 176), (225, 93, 103), (252, 128, 78), (242, 196, 43), (93, 177, 41), (33, 201, 146), (0, 163, 242), (180, 110, 224), (184, 125, 40)],
        thresholds: (20, 15, 20),
        weights: (750, 1000, 1000),
        mix: (10, 100, 100),
        tweak: (0, -1, 1),
        candidates: &[(26, (240, 253, 231)), (37, (43, 70, 227)), (34, (251, 143, 68)), (10, (244, 251, 255)), (7, (132, 136, 124)), (14, (0, 187, 255)), (12, (241, 236, 244)), (45, (56, 124, 132)), (21, (161, 145, 116)), (18, (124, 144, 113)), (46, (179, 185, 176)), (29, (30, 24, 47)), (7, (173, 199, 189)), (14, (54, 226, 155)), (6, (222, 17, 17)), (2, (128, 148, 122)), (6, (253, 112, 71)), (23, (252, 204, 28)), (20, (212, 125, 33)), (30, (240, 255, 246)), (64, (255, 255, 255)), (33, (255, 245, 255)), (10, (236, 123, 70)), (19, (77, 106, 93)), (18, (75, 102, 102)), (38, (173, 161, 172)), (7, (13, 101, 200)), (36, (102, 255, 91)), (16, (183, 118, 244)), (14, (64, 82, 61)), (20, (250, 114, 115)), (45, (128, 0, 98)), (47, (255, 251, 238)), (40, (161, 124, 231)), (27, (64, 67, 67)), (5, (59, 39, 24)), (45, (209, 126, 32)), (47, (46, 58, 13)), (1, (10, 197, 142)), (32, (90, 95, 99)), (27, (183, 194, 212)), (37, (166, 138, 30)), (25, (181, 190, 175)), (9, (166, 118, 60)), (47, (102, 112, 250)), (33, (14, 40, 39)), (27, (217, 0, 181)), (3, (200, 123, 230)), (20, (183, 180, 207)), (2, (202, 150, 43)), (18, (255, 181, 36)), (33, (251, 208, 26)), (44, (234, 245, 101)), (34, (185, 90, 234)), (29, (239, 91, 90)), (34, (194, 113, 104)), (36, (150, 142, 42)), (30, (255, 123, 67)), (40, (113, 186, 43))],
        palette: Some([Some((14, 40, 39)), Some((64, 67, 67)), Some((90, 95, 99)), Some((132, 136, 124)), Some((179, 185, 176)), Some((255, 255, 255)), Some((255, 255, 255)), Some((179, 185, 176)), Some((222, 17, 17)), Some((255, 123, 67)), Some((251, 208, 26)), Some((102, 255, 91)), Some((10, 197, 142)), Some((102, 112, 250)), Some((217, 0, 181)), Some((166, 138, 30))]),
    });
}

#[test]
fn scenario_01() {
    check(&Scenario {
        template: [(34, 34, 34), (48, 48, 48), (85, 85, 85), (137, 137, 137), (192, 192, 192), (255, 255, 255), (255, 255, 255), (176, 176, 176), (225, 93, 103), (252, 128, 78), (242, 196, 43), (93, 177, 41), (33, 201, 146), (0, 163, 242), (180, 110, 224), (184, 125, 40)],
        thresholds: (12, 40, 25),
        weights: (750, 1000, 1000),
        mix: (10, 100, 100),
        tweak: (0, -1, 1),
        candidates: &[(50, (166, 112, 30)), (1, (91, 81, 78)), (40, (116, 123, 133))],
        palette: Some([Some((91, 81, 78)), Some((91, 81, 78)), Some((91, 81, 78)), Some((116, 123, 133)), Some((116, 123, 133)), None, None, Some((116, 123, 133)), Some((166, 30, 112)), Some((166, 73, 30)), Some((166, 132, 30)), Some((95, 166, 30)), Some((30, 166, 93)), Some((166, 112, 30)), Some((58, 30, 166)), Some((166, 110, 30))]),
    });
}

#[test]
fn scenario_02() {
    check(&Scenario {
        template: [(34, 34, 34), (48, 48, 48), (85, 85, 85), (137, 137, 137), (192, 192, 192), (255, 255, 255), (255, 255, 255), (176, 176, 176), (225, 93, 103), (252, 128, 78), (242, 196, 43), (93, 177, 41), (33, 201, 146), (0, 163, 242), (180, 110, 224), (184, 125, 40)],
        thresholds: (20, 15, 20),
        weights: (500, 2000, 1000),
        mix: (-44, 84, -62),
        tweak: (4, -5, 0),
        candidates: &[(1, (0, 152, 231)), (23, (55, 56, 31)), (12, (255, 136, 62)), (40, (30, 35, 45)), (6, (44, 48, 30)), (17, (212, 72, 94)), (37, (118, 140, 125)), (17, (255, 106, 90)), (43, (255, 135, 64)), (47, (130, 253, 81)), (34, (0, 139, 233)), (9, (0, 184, 255)), (47, (241, 115, 121)), (7, (59, 231, 192)), (45, (98, 117, 142)), (12, (225, 100, 127)), (38, (141, 128, 113)), (6, (55, 181, 164)), (42, (172, 113, 224)), (45, (147, 140, 73)), (32, (232, 149, 60)), (15, (20, 188, 245)), (2, (175, 132, 29)), (10, (80, 120, 232)), (18, (101, 159, 42)), (48, (24, 166, 221)), (2, (159, 8, 181)), (4, (217, 194, 206)), (15, (82, 166, 50)), (47, (176, 189, 163)), (40, (190, 246, 36)), (23, (209, 100, 106)), (15, (194, 144, 65)), (39, (171, 200, 175)), (11, (211, 117, 103)), (11, (38, 183, 160)), (14, (245, 255, 233)), (43, (229, 155, 200)), (23, (240, 136, 86)), (30, (162, 108, 203)), (39, (18, 187, 249)), (6, (233, 84, 94)), (31, (23, 53, 32)), (36, (0, 241, 121)), (9, (222, 114, 112)), (20, (23, 154, 249)), (3, (252, 248, 255)), (41, (37, 41, 51)), (13, (235, 255, 231)), (25, (102, 160, 60)), (48, (160, 152, 147)), (4, (229, 173, 45)), (41, (68, 37, 62)), (26, (10, 184, 224)), (42, (185, 153, 164)), (18, (70, 98, 87)), (28, (23, 143, 255)), (48, (228, 145, 115)), (21, (199, 186, 203)), (20, (57, 220, 129))],
        palette: Some([Some((30, 35, 45)), Some((37, 41, 51)), Some((70, 98, 87)), Some((141, 128, 113)), Some((199, 186, 203)), Some((252, 248, 255)), Some((252, 248, 255)), Some((176, 189, 163)), Some((212, 72, 94)), Some((191, 152, 118)), Some((212, 211, 36)), Some((102, 160, 60)), Some((0, 241, 121)), Some((228, 145, 115)), Some((172, 113, 224)), Some((229, 173, 45))]),
    });
}

#[test]
fn scenario_03() {
    check(&Scenario {
        template: [(75, 220, 72), (0, 29, 81), (31, 64, 198), (198, 249, 47), (28, 25, 57), (116, 190, 237), (136, 43, 139), (117, 145, 105), (210, 136, 126), (192, 70, 162), (97, 7, 45), (219, 238, 42), (47, 182, 36), (126, 115, 246), (191, 46, 161), (18, 243, 151)],
        thresholds: (20, 15, 20),
        weights: (750, 1000, 1000),
        mix: (10, 100, 100),
        tweak: (0, -1, 1),
        candidates: &[(42, (0, 224, 163)), (4, (113, 140, 83)), (8, (116, 127, 91)), (23, (23, 22, 98)), (12, (9, 55, 180)), (27, (22, 255, 145)), (1, (120, 151, 120)), (6, (134, 106, 255)), (34, (20, 172, 254)), (31, (190, 92, 158)), (2, (213, 53, 138)), (35, (0, 40, 93)), (37, (231, 119, 134)), (6, (128, 60, 127)), (22, (152, 129, 5)), (41, (0, 19, 84)), (3, (32, 47, 77)), (2, (90, 208, 95)), (48, (185, 123, 109)), (21, (42, 255, 133))],
        palette: Some([Some((90, 208, 95)), Some((0, 19, 84)), Some((9, 55, 180)), None, Some((32, 47, 77)), Some((20, 172, 254)), Some((128, 60, 127)), Some((120, 151, 120)), Some((207, 193, 185)), Some((190, 92, 158)), Some((185, 109, 182)), Some((184, 185, 109)), Some((113, 140, 83)), Some((185, 123, 109)), Some((173, 131, 185)), Some((0, 224, 163))]),
    });
}

#[test]
fn scenario_04() {
    check(&Scenario {
        template: [(34, 34, 34), (48, 48, 48), (85, 85, 85), (137, 137, 137), (192, 192, 192), (255, 255, 255), (255, 255, 255), (176, 176, 176), (225, 93, 103), (252, 128, 78), (242, 196, 43), (93, 177, 41), (33, 201, 146), (0, 163, 242), (180, 110, 224), (184, 125, 40)],
        thresholds: (20, 15, 20),
        weights: (750, 1000, 1000),
        mix: (10, 100, 100),
        tweak: (0, -1, 1),
        candidates: &[(47, (94, 159, 19)), (22, (151, 139, 135)), (45, (29, 22, 238))],
        palette: Some([None, None, None, Some((151, 139, 135)), Some((151, 139, 135)), None, None, Some((151, 139, 135)), Some((159, 19, 92)), Some((159, 75, 19)), Some((159, 136, 19)), Some((74, 159, 19)), Some((19, 159, 96)), Some((94, 159, 19)), Some((60, 19, 159)), Some((159, 113, 19))]),
    });
}

#[test]
fn scenario_05() {
    check(&Scenario {
        template: [(34, 34, 34), (48, 48, 48), (85, 85, 85), (137, 137, 137), (192, 192, 192), (255, 255, 255), (255, 255, 255), (176, 176, 176), (225, 93, 103), (252, 128, 78), (242, 196, 43), (93, 177, 41), (33, 201, 146), (0, 163, 242), (180, 110, 224), (184, 125, 40)],
        thresholds: (5, 40, 10),
        weights: (750, 1000, 1000),
        mix: (10, 100, 100),
        tweak: (0, -1, 1),
        candidates: &[(9, (12, 53, 9)), (2, (93, 178, 31)), (9, (23, 246, 99))],
        palette: Some([None, None, None, None, None, None, None, None, Some((246, 23, 119)), Some((246, 132, 23)), Some((246, 229, 23)), Some((93, 178, 31)), Some((23, 246, 165)), Some((23, 246, 99)), Some((109, 23, 246)), Some((246, 193, 23))]),
    });
}

#[test]
fn scenario_06() {
    check(&Scenario {
        template: [(34, 34, 34), (48, 48, 48), (85, 85, 85), (137, 137, 137), (192, 192, 192), (255, 255, 255), (255, 255, 255), (176, 176, 176), (225, 93, 103), (252, 128, 78), (242, 196, 43), (93, 177, 41), (33, 201, 146), (0, 163, 242), (180, 110, 224), (184, 125, 40)],
        thresholds: (20, 15, 20),
        weights: (500, 2000, 1000),
        mix: (-57, -9, 10),
        tweak: (3, 2, 5),
        candidates: &[(7, (158, 200, 167)), (17, (195, 188, 208)), (49, (38, 44, 70)), (36, (74, 253, 202)), (17, (207, 198, 183)), (42, (255, 179, 31)), (30, (166, 100, 43)), (43, (154, 112, 140)), (30, (255, 255, 255)), (18, (255, 204, 23)), (36, (254, 255, 237)), (46, (198, 187, 198)), (21, (154, 138, 120)), (19, (255, 243, 255)), (37, (182, 103, 230)), (3, (176, 117, 221)), (44, (255, 190, 28)), (40, (255, 207, 22)), (19, (200, 90, 221)), (45, (10, 175, 254)), (42, (13, 31, 48)), (44, (117, 129, 119)), (16, (77, 161, 22)), (15, (73, 190, 35)), (11, (71, 84, 67)), (5, (201, 109, 78)), (40, (244, 182, 66)), (50, (83, 168, 50)), (35, (185, 111, 205)), (31, (161, 95, 222)), (26, (172, 130, 24)), (1, (159, 127, 216)), (35, (252, 111, 95)), (9, (255, 230, 255)), (6, (176, 115, 224)), (45, (231, 56, 0)), (6, (183, 57, 54)), (13, (69, 164, 240)), (28, (144, 128, 135)), (12, (42, 178, 170)), (21, (199, 137, 57)), (14, (40, 31, 23)), (28, (193, 151, 188)), (4, (223, 69, 76)), (23, (160, 203, 54)), (4, (164, 115, 218)), (32, (34, 64, 156)), (13, (244, 255, 255)), (33, (176, 126, 41)), (3, (197, 125, 50)), (42, (198, 172, 174)), (26, (8, 223, 148)), (49, (150, 219, 91)), (6, (228, 180, 21)), (43, (94, 81, 71)), (40, (248, 130, 95)), (6, (116, 147, 154)), (47, (90, 160, 33)), (16, (255, 255, 249)), (16, (173, 152, 173))],
        palette: Some([Some((40, 31, 23)), Some((40, 31, 23)), Some((94, 81, 71)), Some((144, 128, 135)), Some((198, 187, 198)), Some((255, 255, 255)), Some((255, 255, 255)), Some((198, 187, 198)), Some((248, 199, 199)), Some((248, 130, 95)), Some((255, 190, 28)), Some((119, 237, 138)), Some((74, 253, 202)), Some((83, 168, 50)), Some((154, 112, 140)), Some((176, 126, 41))]),
    });
}

#[test]
fn scenario_07() {
    check(&Scenario {
        template: [(149, 126, 127), (64, 126, 164), (44, 194, 130), (93, 16, 182), (226, 127, 126), (146, 2, 255), (179, 157, 250), (180, 34, 227), (230, 245, 60), (90, 143, 150), (100, 248, 75), (165, 183, 206), (171, 61, 132), (242, 173, 240), (203, 0, 79), (58, 160, 157)],
        thresholds: (20, 15, 20),
        weights: (750, 1000, 1000),
        mix: (10, 100, 100),
        tweak: (0, -1, 1),
        candidates: &[(38, (74, 179, 150)), (14, (122, 255, 84)), (18, (67, 157, 58))],
        palette: Some([None, None, Some((67, 157, 58)), None, None, None, None, None, Some((153, 179, 74)), Some((183, 202, 203)), Some((122, 255, 84)), Some((74, 128, 179)), Some((179, 74, 169)), Some((74, 179, 150)), Some((179, 74, 145)), Some((129, 180, 175))]),
    });
}

#[test]
fn scenario_08() {
    check(&Scenario {
        template: [(34, 34, 34), (48, 48, 48), (85, 85, 85), (137, 137, 137), (192, 192, 192), (255, 255, 255), (255, 255, 255), (176, 176, 176), (225, 93, 103), (252, 128, 78), (242, 196, 43), (93, 177, 41), (33, 201, 146), (0, 163, 242), (180, 110, 224), (184, 125, 40)],
        thresholds: (20, 15, 20),
        weights: (750, 1000, 1000),
        mix: (10, 100, 100),
        tweak: (0, -1, 1),
        candidates: &[(22, (122, 158, 123)), (20, (115, 145, 137)), (31, (255, 115, 92)), (42, (191, 162, 195)), (23, (69, 58, 50)), (37, (83, 64, 76)), (40, (0, 172, 222)), (12, (9, 160, 247)), (39, (54, 218, 161)), (2, (28, 56, 16)), (49, (235, 92, 118)), (15, (86, 172, 64)), (36, (171, 85, 246)), (21, (255, 118, 54)), (25, (19, 29, 48)), (7, (255, 145, 68)), (28, (191, 201, 17)), (22, (57, 48, 158)), (46, (71, 180, 25)), (28, (231, 71, 121))],
        palette: Some([Some((19, 29, 48)), Some((69, 58, 50)), Some((69, 58, 50)), Some((115, 145, 137)), Some((191, 162, 195)), None, None, Some((191, 162, 195)), Some((227, 176, 181)), Some((255, 118, 54)), Some((195, 235, 92)), Some((71, 180, 25)), Some((92, 235, 233)), Some((235, 92, 118)), Some((171, 85, 246)), Some((218, 235, 92))]),
    });
}

#[test]
fn scenario_09() {
    check(&Scenario {
        template: [(34, 34, 34), (48, 48, 48), (85, 85, 85), (137, 137, 137), (192, 192, 192), (255, 255, 255), (255, 255, 255), (176, 176, 176), (225, 93, 103), (252, 128, 78), (242, 196, 43), (93, 177, 41), (33, 201, 146), (0, 163, 242), (180, 110, 224), (184, 125, 40)],
        thresholds: (12, 5, 25),
        weights: (750, 1000, 1000),
        mix: (10, 100, 100),
        tweak: (0, -1, 1),
        candidates: &[(28, (159, 235, 216)), (44, (52, 32, 32)), (42, (17, 205, 44)), (39, (52, 50, 55)), (50, (236, 152, 73)), (39, (161, 115, 212)), (30, (18, 17, 26)), (41, (23, 181, 240))],
        palette: Some([Some((52, 50, 55)), Some((52, 50, 55)), Some((52, 50, 55)), Some((23, 181, 240)), Some((159, 235, 216)), Some((159, 235, 216)), Some((159, 235, 216)), Some((23, 181, 240)), Some((236, 73, 174)), Some((236, 123, 73)), Some((236, 193, 73)), Some((17, 205, 44)), Some((159, 235, 216)), Some((236, 152, 73)), Some((161, 115, 212)), Some((236, 167, 73))]),
    });
}

#[test]
fn scenario_10() {
    check(&Scenario {
        template: [(34, 34, 34), (48, 48, 48), (85, 85, 85), (137, 137, 137), (192, 192, 192), (255, 255, 255), (255, 255, 255), (176, 176, 176), (225, 93, 103), (252, 128, 78), (242, 196, 43), (93, 177, 41), (33, 201, 146), (0, 163, 242), (180, 110, 224), (184, 125, 40)],
        thresholds: (20, 15, 20),
        weights: (1000, 1000, 1000),
        mix: (99, -37, 86),
        tweak: (4, -3, 2),
        candidates: &[(37, (16, 67, 11)), (44, (255, 255, 240)), (15, (74, 91, 71))],
        palette: None,
    });
}

#[test]
fn scenario_11() {
    check(&Scenario {
        template: [(56, 224, 225), (105, 130, 21), (71, 13, 170), (29, 201, 153), (184, 79, 111), (139, 78, 165), (229, 99, 117), (55, 208, 113), (16, 6, 118), (32, 123, 82), (98, 19, 222), (219, 246, 237), (199, 7, 197), (11, 159, 251), (12, 234, 23), (22, 83, 79)],
        thresholds: (20, 15, 20),
        weights: (750, 1000, 1000),
        mix: (10, 100, 100),
        tweak: (0, -1, 1),
        candidates: &[(42, (87, 0, 169)), (9, (0, 214, 22)), (22, (244, 80, 129)), (35, (13, 0, 102)), (48, (20, 0, 100)), (22, (117, 75, 172)), (35, (45, 69, 18)), (2, (189, 238, 134)), (44, (1, 174, 255)), (9, (23, 111, 75)), (37, (250, 109, 202)), (14, (153, 79, 154)), (32, (204, 9, 187)), (30, (85, 136, 41)), (48, (114, 36, 239)), (37, (29, 135, 58)), (17, (20, 235, 20)), (21, (28, 210, 38)), (13, (188, 58, 95)), (23, (255, 180, 59))],
        palette: Some([None, Some((85, 136, 41)), Some((87, 0, 169)), None, Some((188, 58, 95)), Some((153, 79, 154)), Some((244, 80, 129)), Some((28, 210, 38)), Some((20, 0, 100)), Some((29, 135, 58)), Some((148, 108, 218)), Some((174, 218, 216)), Some((250, 109, 202)), Some((114, 36, 239)), Some((28, 210, 38)), Some((36, 222, 239))]),
    });
}

#[test]
fn scenario_12() {
    check(&Scenario {
        template: [(34, 34, 34), (48, 48, 48), (85, 85, 85), (137, 137, 137), (192, 192, 192), (255, 255, 255), (255, 255, 255), (176, 176, 176), (225, 93, 103), (252, 128, 78), (242, 196, 43), (93, 177, 41), (33, 201, 146), (0, 163, 242), (180, 110, 224), (184, 125, 40)],
        thresholds: (20, 15, 20),
        weights: (750, 1000, 1000),
        mix: (10, 100, 100),
        tweak: (0, -1, 1),
        candidates: &[(2, (37, 187, 170)), (13, (79, 66, 71)), (27, (8, 197, 122)), (11, (188, 129, 61)), (19, (227, 213, 26)), (20, (0, 145, 255)), (6, (233, 78, 100)), (27, (244, 255, 255)), (5, (148, 192, 175)), (5, (0, 181, 255)), (27, (81, 203, 218)), (9, (232, 148, 91)), (2, (13, 78, 167)), (48, (184, 15, 101)), (13, (193, 98, 247)), (36, (24, 36, 23)), (29, (24, 0, 90)), (6, (221, 206, 24)), (19, (208, 180, 194)), (22, (97, 200, 65))],
        palette: Some([Some((24, 36, 23)), Some((79, 66, 71)), Some((79, 66, 71)), Some((208, 180, 194)), Some((208, 180, 194)), Some((244, 255, 255)), Some((244, 255, 255)), Some((208, 180, 194)), Some((197, 146, 162)), Some((184, 151, 15)), Some((227, 213, 26)), Some((168, 206, 168)), Some((8, 197, 122)), Some((184, 15, 101)), Some((193, 98, 247)), Some((188, 129, 61))]),
    });
}

#[test]
fn scenario_13() {
    check(&Scenario {
        template: [(34, 34, 34), (48, 48, 48), (85, 85, 85), (137, 137, 137), (192, 192, 192), (255, 255, 255), (255, 255, 255), (176, 176, 176), (225, 93, 103), (252, 128, 78), (242, 196, 43), (93, 177, 41), (33, 201, 146), (0, 163, 242), (180, 110, 224), (184, 125, 40)],
        thresholds: (12, 25, 25),
        weights: (750, 1000, 1000),
        mix: (10, 100, 100),
        tweak: (0, -1, 1),
        candidates: &[(21, (38, 85, 100)), (3, (95, 104, 72)), (32, (199, 223, 191)), (1, (194, 148, 36)), (1, (138, 108, 92)), (36, (177, 172, 161)), (49, (199, 183, 103)), (18, (229, 74, 97))],
        palette: Some([Some((38, 85, 100)), Some((38, 85, 100)), Some((38, 85, 100)), Some((177, 172, 161)), Some((177, 172, 161)), Some((199, 223, 191)), Some((199, 223, 191)), Some((177, 172, 161)), Some((229, 74, 97)), Some((199, 136, 105)), Some((199, 177, 107)), Some((147, 199, 103)), Some((141, 199, 168)), Some((199, 183, 103)), Some((125, 103, 199)), Some((194, 148, 36))]),
    });
}

#[test]
fn scenario_14() {
    check(&Scenario {
        template: [(34, 34, 34), (48, 48, 48), (85, 85, 85), (137, 137, 137), (192, 192, 192), (255, 255, 255), (255, 255, 255), (176, 176, 176), (225, 93, 103), (252, 128, 78), (242, 196, 43), (93, 177, 41), (33, 201, 146), (0, 163, 242), (180, 110, 224), (184, 125, 40)],
        thresholds: (20, 15, 20),
        weights: (3000, 700, 1200),
        mix: (-36, 28, -42),
        tweak: (-1, 2, -4),
        candidates: &[(10, (127, 155, 135)), (38, (135, 148, 143)), (27, (18, 127, 199)), (9, (206, 91, 122)), (14, (147, 154, 148)), (4, (255, 119, 78)), (2, (49, 255, 25)), (9, (240, 233, 255))],
        palette: Some([None, None, None, Some((147, 154, 148)), Some((147, 154, 148)), Some((240, 233, 255)), Some((240, 233, 255)), Some((147, 154, 148)), Some((206, 91, 122)), Some((255, 119, 78)), Some((49, 255, 25)), Some((116, 100, 2)), Some((12, 172, 55)), Some((18, 127, 199)), Some((109, 19, 207)), Some((192, 34, 34))]),
    });
}

#[test]
fn scenario_15() {
    check(&Scenario {
        template: [(162, 115, 243), (86, 243, 250), (192, 95, 144), (74, 192, 178), (218, 200, 111), (237, 95, 45), (73, 138, 105), (223, 246, 227), (251, 170, 144), (177, 133, 25), (55, 41, 137), (253, 189, 184), (206, 182, 220), (228, 204, 154), (123, 175, 104), (116, 11, 22)],
        thresholds: (20, 15, 20),
        weights: (750, 1000, 1000),
        mix: (10, 100, 100),
        tweak: (0, -1, 1),
        candidates: &[(34, (100, 165, 112)), (39, (255, 101, 68)), (39, (255, 91, 25)), (13, (22, 15, 253)), (44, (178, 173, 118)), (43, (221, 96, 50)), (44, (155, 122, 30)), (34, (182, 83, 136)), (15, (176, 156, 229)), (23, (255, 82, 36)), (12, (141, 189, 101)), (50, (176, 146, 33)), (10, (224, 205, 137)), (40, (76, 255, 255)), (36, (159, 125, 44)), (3, (174, 229, 0)), (34, (169, 115, 128)), (15, (80, 175, 191)), (22, (110, 12, 47)), (50, (255, 179, 187)), (43, (93, 202, 182)), (50, (255, 194, 187)), (31, (224, 186, 238)), (12, (244, 157, 145)), (10, (166, 103, 246)), (11, (240, 147, 135)), (12, (231, 23, 67)), (13, (228, 180, 165)), (23, (64, 189, 200)), (1, (236, 199, 148)), (15, (239, 185, 128)), (24, (247, 221, 145)), (48, (229, 164, 169)), (44, (144, 194, 88)), (45, (228, 186, 94)), (48, (153, 135, 246)), (43, (246, 188, 146)), (47, (255, 149, 137)), (45, (64, 64, 126)), (17, (196, 174, 207)), (23, (255, 202, 178)), (3, (93, 0, 25)), (38, (202, 255, 234)), (42, (192, 94, 132)), (2, (95, 243, 255)), (43, (174, 93, 246)), (33, (153, 255, 72)), (24, (139, 163, 87)), (31, (236, 114, 39)), (42, (166, 139, 43)), (50, (183, 187, 234)), (36, (50, 209, 248)), (4, (218, 255, 229)), (27, (127, 160, 235)), (47, (105, 225, 255)), (5, (200, 255, 228)), (46, (219, 45, 139)), (38, (191, 205, 218)), (18, (103, 195, 99)), (16, (47, 23, 124))],
        palette: Some([Some((166, 103, 246)), Some((95, 243, 255)), Some((192, 94, 132)), Some((93, 202, 182)), Some((224, 205, 137)), Some((221, 96, 50)), Some((100, 165, 112)), Some((218, 255, 229)), Some((255, 82, 36)), Some((176, 146, 33)), Some((64, 64, 126)), Some((254, 251, 251)), Some((176, 156, 229)), Some((255, 194, 187)), Some((144, 194, 88)), Some((110, 12, 47))]),
    });
}

#[test]
fn scenario_16() {
    check(&Scenario {
        template: [(34, 34, 34), (48, 48, 48), (85, 85, 85), (137, 137, 137), (192, 192, 192), (255, 255, 255), (255, 255, 255), (176, 176, 176), (225, 93, 103), (252, 128, 78), (242, 196, 43), (93, 177, 41), (33, 201, 146), (0, 163, 242), (180, 110, 224), (184, 125, 40)],
        thresholds: (20, 15, 20),
        weights: (750, 1000, 1000),
        mix: (10, 100, 100),
        tweak: (0, -1, 1),
        candidates: &[(8, (198, 126, 49)), (8, (54, 226, 239)), (16, (110, 198, 45)), (43, (250, 68, 90)), (42, (21, 183, 126)), (4, (196, 180, 166)), (39, (63, 130, 104)), (48, (240, 255, 250)), (7, (255, 125, 71)), (39, (56, 239, 0)), (48, (44, 33, 18)), (28, (224, 176, 21)), (47, (213, 181, 192)), (38, (105, 173, 228)), (31, (175, 100, 46)), (35, (245, 183, 65)), (25, (237, 16, 249)), (23, (35, 16, 52)), (21, (5, 58, 51)), (4, (235, 255, 255)), (24, (174, 194, 191)), (42, (67, 110, 72)), (13, (89, 66, 92)), (3, (208, 93, 115)), (16, (72, 77, 62)), (36, (254, 36, 153)), (31, (212, 105, 101)), (42, (252, 255, 246)), (32, (12, 177, 228)), (17, (160, 118, 217)), (31, (58, 68, 45)), (2, (196, 202, 203)), (49, (171, 149, 48)), (15, (0, 159, 81)), (50, (228, 82, 80)), (31, (243, 92, 17)), (29, (246, 184, 28)), (37, (239, 255, 255)), (16, (237, 255, 255)), (43, (255, 190, 39)), (22, (163, 128, 222)), (26, (178, 137, 37)), (48, (79, 63, 156)), (50, (237, 85, 100)), (38, (161, 148, 22)), (24, (184, 172, 209)), (40, (26, 0, 9)), (42, (100, 61, 96)), (30, (248, 104, 94)), (44, (239, 38, 26)), (11, (61, 40, 187)), (15, (201, 1, 242)), (40, (212, 198, 167)), (21, (244, 255, 239)), (1, (229, 41, 228)), (36, (67, 77, 69)), (5, (127, 117, 122)), (43, (80, 91, 107)), (19, (151, 200, 196)), (33, (240, 113, 98))],
        palette: Some([Some((44, 33, 18)), Some((44, 33, 18)), Some((80, 91, 107)), Some((127, 117, 122)), Some((196, 202, 203)), Some((252, 255, 246)), Some((252, 255, 246)), Some((196, 202, 203)), Some((227, 175, 180)), Some((237, 214, 85)), Some((171, 149, 48)), Some((56, 239, 0)), Some((21, 183, 126)), Some((237, 85, 100)), Some((237, 16, 249)), Some((175, 100, 46))]),
    });
}

#[test]
fn scenario_17() {
    check(&Scenario {
        template: [(34, 34, 34), (48, 48, 48), (85, 85, 85), (137, 137, 137), (192, 192, 192), (255, 255, 255), (255, 255, 255), (176, 176, 176), (225, 93, 103), (252, 128, 78), (242, 196, 43), (93, 177, 41), (33, 201, 146), (0, 163, 242), (180, 110, 224), (184, 125, 40)],
        thresholds: (45, 25, 25),
        weights: (750, 1000, 1000),
        mix: (10, 100, 100),
        tweak: (0, -1, 1),
        candidates: &[(19, (112, 162, 47)), (26, (238, 96, 96)), (11, (163, 100, 49))],
        palette: Some([None, None, Some((163, 100, 49)), Some((163, 100, 49)), None, None, None, None, Some((250, 247, 250)), Some((230, 178, 165)), Some((238, 194, 96)), Some((112, 162, 47)), Some((156, 230, 191)), Some((238, 96, 96)), Some((117, 96, 238)), Some((230, 204, 177))]),
    });
}

#[test]
fn scenario_18() {
    check(&Scenario {
        template: [(34, 34, 34), (48, 48, 48), (85, 85, 85), (137, 137, 137), (192, 192, 192), (255, 255, 255), (255, 255, 255), (176, 176, 176), (225, 93, 103), (252, 128, 78), (242, 196, 43), (93, 177, 41), (33, 201, 146), (0, 163, 242), (180, 110, 224), (184, 125, 40)],
        thresholds: (20, 15, 20),
        weights: (1000, 1000, 1000),
        mix: (94, 88, 25),
        tweak: (4, 0, 2),
        candidates: &[(45, (42, 36, 44)), (42, (72, 69, 61)), (14, (198, 102, 219)), (29, (209, 89, 102)), (47, (255, 247, 255)), (23, (169, 128, 47)), (32, (108, 62, 80)), (1, (22, 173, 240)), (44, (183, 118, 58)), (17, (171, 181, 177)), (43, (15, 196, 169)), (34, (255, 122, 75)), (46, (254, 122, 83)), (46, (230, 238, 255)), (1, (80, 25, 0)), (7, (231, 255, 235)), (46, (246, 255, 253)), (9, (42, 159, 10)), (49, (170, 85, 206)), (43, (107, 64, 109)), (50, (251, 53, 0)), (7, (245, 190, 52)), (14, (0, 160, 217)), (27, (10, 156, 218)), (30, (99, 189, 33)), (24, (198, 201, 182)), (10, (240, 255, 255)), (2, (20, 48, 35)), (19, (255, 238, 255)), (14, (170, 92, 211)), (32, (255, 237, 240)), (32, (169, 193, 158)), (20, (36, 177, 170)), (17, (45, 204, 136)), (43, (175, 115, 50)), (26, (255, 79, 21)), (14, (29, 69, 27)), (33, (144, 113, 161)), (19, (22, 22, 19)), (3, (255, 255, 255)), (5, (220, 208, 27)), (9, (0, 182, 233)), (46, (50, 50, 52)), (49, (213, 141, 37)), (2, (19, 204, 134)), (40, (201, 89, 227)), (3, (39, 50, 19)), (23, (209, 172, 181)), (39, (219, 187, 65)), (10, (225, 89, 123)), (21, (211, 206, 211)), (41, (53, 199, 136)), (37, (81, 118, 50)), (3, (238, 171, 57)), (39, (247, 102, 91)), (24, (54, 58, 10)), (41, (187, 102, 62)), (27, (249, 122, 60)), (17, (229, 145, 83)), (22, (174, 106, 206))],
        palette: Some([Some((22, 22, 19)), Some((50, 50, 52)), Some((72, 69, 61)), Some((171, 181, 177)), Some((211, 206, 211)), Some((255, 255, 255)), Some((255, 255, 255)), Some((171, 181, 177)), Some((225, 89, 123)), Some((254, 182, 145)), Some((219, 187, 65)), Some((81, 118, 50)), Some((15, 196, 169)), Some((251, 53, 0)), Some((170, 85, 206)), Some((175, 115, 50))]),
    });
}

#[test]
fn scenario_19() {
    check(&Scenario {
        template: [(205, 81, 122), (255, 8, 244), (161, 49, 67), (231, 15, 116), (231, 120, 167), (146, 148, 32), (234, 87, 219), (145, 101, 241), (194, 236, 237), (124, 252, 31), (94, 147, 163), (170, 150, 66), (203, 181, 40), (222, 54, 110), (141, 185, 3), (41, 102, 209)],
        thresholds: (20, 15, 20),
        weights: (750, 1000, 1000),
        mix: (10, 100, 100),
        tweak: (0, -1, 1),
        candidates: &[(23, (227, 223, 207)), (42, (196, 238, 212)), (38, (213, 107, 241))],
        palette: Some([None, None, None, None, None, None, None, None, Some((107, 214, 241)), Some((120, 241, 107)), Some((107, 189, 241)), Some((213, 241, 107)), Some((206, 241, 107)), Some((213, 107, 241)), Some((205, 233, 176)), Some((107, 140, 241))]),
    });
}

#[test]
fn scenario_20() {
    check(&Scenario {
        template: [(34, 34, 34), (48, 48, 48), (85, 85, 85), (137, 137, 137), (192, 192, 192), (255, 255, 255), (255, 255, 255), (176, 176, 176), (225, 93, 103), (252, 128, 78), (242, 196, 43), (93, 177, 41), (33, 201, 146), (0, 163, 242), (180, 110, 224), (184, 125, 40)],
        thresholds: (20, 15, 20),
        weights: (750, 1000, 1000),
        mix: (10, 100, 100),
        tweak: (0, -1, 1),
        candidates: &[(25, (238, 241, 242)), (9, (176, 171, 190)), (46, (216, 108, 78)), (29, (27, 253, 182)), (14, (255, 255, 255)), (17, (238, 142, 61)), (5, (251, 241, 251)), (39, (224, 0, 94)), (38, (124, 145, 121)), (25, (59, 152, 68)), (45, (191, 146, 157)), (15, (64, 63, 75)), (27, (202, 109, 95)), (44, (178, 128, 55)), (10, (99, 103, 60)), (27, (182, 176, 169)), (33, (178, 126, 33)), (4, (167, 101, 206)), (21, (10, 60, 140)), (48, (98, 85, 64))],
        palette: Some([Some((64, 63, 75)), Some((64, 63, 75)), Some((98, 85, 64)), Some((124, 145, 121)), Some((182, 176, 169)), Some((255, 255, 255)), Some((255, 255, 255)), Some((182, 176, 169)), Some((224, 0, 94)), Some((212, 182, 160)), Some((212, 208, 162)), Some((59, 152, 68)), Some((27, 253, 182)), Some((216, 108, 78)), Some((167, 101, 206)), Some((178, 128, 55))]),
    });
}

#[test]
fn scenario_21() {
    check(&Scenario {
        template: [(34, 34, 34), (48, 48, 48), (85, 85, 85), (137, 137, 137), (192, 192, 192), (255, 255, 255), (255, 255, 255), (176, 176, 176), (225, 93, 103), (252, 128, 78), (242, 196, 43), (93, 177, 41), (33, 201, 146), (0, 163, 242), (180, 110, 224), (184, 125, 40)],
        thresholds: (30, 5, 40),
        weights: (750, 1000, 1000),
        mix: (10, 100, 100),
        tweak: (0, -1, 1),
        candidates: &[(30, (223, 205, 66)), (27, (225, 185, 19)), (24, (184, 158, 160)), (17, (75, 198, 51)), (9, (52, 206, 165)), (40, (80, 2, 204)), (26, (84, 238, 210)), (25, (255, 201, 21)), (13, (174, 103, 62)), (1, (72, 86, 63)), (28, (172, 183, 154)), (32, (173, 37, 181)), (46, (209, 207, 181)), (39, (193, 117, 199)), (28, (0, 143, 225)), (1, (188, 184, 189)), (6, (0, 92, 0)), (21, (246, 151, 84)), (12, (160, 146, 160)), (21, (121, 69, 158)), (15, (226, 213, 24)), (43, (80, 110, 23)), (47, (243, 255, 255)), (41, (26, 220, 139)), (19, (243, 240, 244)), (50, (226, 220, 20)), (12, (152, 200, 182)), (33, (165, 197, 167)), (39, (130, 119, 151)), (31, (69, 146, 142)), (41, (172, 128, 32)), (34, (65, 41, 42)), (41, (159, 147, 58)), (24, (150, 129, 157)), (36, (178, 128, 218)), (13, (159, 165, 40)), (33, (207, 180, 195)), (40, (172, 191, 212)), (12, (234, 178, 30)), (27, (29, 67, 155)), (33, (178, 156, 194)), (43, (255, 200, 54)), (12, (255, 255, 241)), (8, (20, 201, 166)), (16, (205, 202, 184)), (12, (196, 185, 206)), (30, (227, 178, 7)), (45, (255, 194, 55)), (27, (238, 255, 255)), (46, (230, 73, 103)), (47, (156, 151, 141)), (30, (69, 65, 26)), (40, (135, 160, 135)), (5, (255, 243, 249)), (8, (114, 150, 123)), (49, (237, 208, 32)), (44, (250, 88, 91)), (19, (8, 185, 149)), (40, (214, 177, 169)), (10, (37, 29, 15))],
        palette: Some([Some((37, 29, 15)), Some((37, 29, 15)), Some((72, 86, 63)), Some((156, 151, 141)), Some((188, 184, 189)), Some((243, 240, 244)), Some((243, 240, 244)), Some((188, 184, 189)), Some((230, 73, 103)), Some((230, 221, 206)), Some((226, 182, 20)), Some((0, 92, 0)), Some((84, 238, 210)), Some((226, 220, 20)), Some((80, 2, 204)), Some((246, 151, 84))]),
    });
}

#[test]
fn scenario_22() {
    check(&Scenario {
        template: [(34, 34, 34), (48, 48, 48), (85, 85, 85), (137, 137, 137), (192, 192, 192), (255, 255, 255), (255, 255, 255), (176, 176, 176), (225, 93, 103), (252, 128, 78), (242, 196, 43), (93, 177, 41), (33, 201, 146), (0, 163, 242), (180, 110, 224), (184, 125, 40)],
        thresholds: (20, 15, 20),
        weights: (500, 2000, 1000),
        mix: (-26, 9, 44),
        tweak: (0, -4, 5),
        candidates: &[(21, (196, 212, 180)), (46, (255, 255, 255)), (17, (199, 146, 58))],
        palette: Some([None, None, None, None, Some((196, 212, 180)), Some((255, 255, 255)), Some((255, 255, 255)), Some((196, 212, 180)), Some((219, 71, 71)), Some((242, 212, 204)), Some((236, 228, 194)), Some((62, 190, 44)), Some((36, 172, 207)), Some((199, 146, 58)), Some((217, 82, 129)), Some((220, 201, 175))]),
    });
}

#[test]
fn scenario_23() {
    check(&Scenario {
        template: [(103, 98, 47), (249, 2, 255), (24, 78, 56), (49, 12, 212), (204, 195, 69), (199, 17, 156), (89, 219, 24), (115, 141, 101), (147, 73, 213), (155, 213, 10), (186, 46, 125), (82, 187, 130), (43, 7, 133), (117, 135, 21), (97, 138, 48), (38, 237, 67)],
        thresholds: (20, 15, 20),
        weights: (750, 1000, 1000),
        mix: (10, 100, 100),
        tweak: (0, -1, 1),
        candidates: &[(13, (100, 199, 112)), (42, (192, 50, 119)), (37, (89, 169, 124)), (17, (40, 5, 136)), (9, (123, 73, 251)), (24, (86, 209, 7)), (37, (255, 0, 255)), (46, (157, 74, 236)), (35, (142, 114, 0)), (14, (214, 18, 176)), (41, (169, 146, 88)), (48, (57, 4, 191)), (10, (35, 223, 64)), (37, (197, 58, 115)), (4, (73, 210, 31)), (1, (181, 35, 154)), (17, (168, 122, 176)), (18, (25, 215, 8)), (49, (211, 44, 116)), (21, (144, 98, 221)), (43, (36, 255, 90)), (32, (57, 223, 58)), (7, (198, 0, 146)), (30, (88, 201, 110)), (42, (15, 77, 5)), (40, (229, 22, 255)), (41, (165, 57, 199)), (3, (109, 45, 67)), (36, (139, 194, 82)), (34, (98, 220, 37)), (40, (144, 225, 0)), (2, (131, 232, 28)), (48, (181, 93, 201)), (42, (107, 101, 44)), (25, (175, 1, 172)), (41, (209, 180, 246)), (17, (188, 36, 144)), (30, (24, 170, 158)), (26, (89, 117, 33)), (17, (197, 187, 202)), (16, (103, 92, 177)), (6, (115, 175, 151)), (16, (176, 42, 110)), (35, (92, 177, 138)), (1, (164, 123, 176)), (7, (56, 5, 151)), (48, (106, 232, 34)), (46, (126, 148, 121)), (16, (188, 0, 67)), (16, (7, 92, 66)), (38, (168, 47, 121)), (27, (26, 0, 137)), (2, (66, 243, 22)), (16, (34, 206, 207)), (13, (172, 47, 132)), (32, (108, 122, 32)), (15, (31, 10, 138)), (26, (77, 191, 125)), (9, (103, 145, 53)), (41, (52, 243, 44))],
        palette: Some([Some((107, 101, 44)), Some((255, 0, 255)), Some((7, 92, 66)), Some((57, 4, 191)), Some((139, 194, 82)), Some((188, 36, 144)), Some((98, 220, 37)), Some((126, 148, 121)), Some((157, 74, 236)), Some((182, 206, 168)), Some((109, 45, 67)), Some((89, 169, 124)), Some((57, 4, 191)), Some((211, 44, 116)), Some((107, 101, 44)), Some((52, 243, 44))]),
    });
}
