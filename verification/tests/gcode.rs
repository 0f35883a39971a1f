use slicey::gcode::{Directive, GcodeWriter};
use slicey::postprocess::{arcwelder, arcwelder_exe_path, Invocation};
use slicey::settings::{
    BrimSettings, FloatOrVecOfFloats, InfillSettings, IntOrVecOfInts, LayerHeightSettings,
    PerimeterSettings, Settings, SkirtSettings,
};

#[test]
fn a_new_writer_is_empty_and_knows_its_file() {
    let w = GcodeWriter::new("part.gcode");
    assert!(w.directives().is_empty());
    assert_eq!(w.file_name(), "part.gcode");
}

#[test]
fn the_writer_records_directives_in_order() {
    let mut w = GcodeWriter::new("part.gcode");
    w.write_header();
    w.write_home_all();
    w.write_gcode("G92 E0; zero the extruder");
    w.write_layer_change(3, 800_000, 'F', 1_200_000_000);
    w.write_perimeter(1, -2, 800_000, 555_000_000, 1_200_000_000);
    w.write_gcode("");
    assert_eq!(
        w.directives(),
        &vec![
            Directive::Header,
            Directive::HomeAll,
            Directive::Raw("G92 E0; zero the extruder".to_string()),
            Directive::LayerChange { n: 3, z: 800_000, feed_axis: 'F', feed_rate: 1_200_000_000 },
            Directive::Perimeter {
                x: 1,
                y: -2,
                z: 800_000,
                s: 555_000_000,
                extrusion: 1_200_000_000
            },
            Directive::Raw(String::new()),
        ]
    );
    assert_eq!(w.file_name(), "part.gcode");
}

#[test]
fn the_executable_is_the_recorded_path() {
    assert_eq!(
        arcwelder_exe_path("/opt/arcwelder/ArcWelderConsole"),
        Some("/opt/arcwelder/ArcWelderConsole".to_string())
    );
    assert_eq!(arcwelder_exe_path(""), None);
}

#[test]
fn the_post_processor_is_called_with_input_then_output() {
    assert_eq!(
        arcwelder("/opt/aw", "in.gcode", "out.gcode"),
        Some(Invocation {
            program: "/opt/aw".to_string(),
            arguments: vec!["in.gcode".to_string(), "out.gcode".to_string()],
        })
    );
    assert_eq!(arcwelder("", "in.gcode", "out.gcode"), None);
}

#[test]
fn settings_hold_what_they_are_given() {
    let s = Settings {
        brim: Some(BrimSettings {}),
        infill: Some(InfillSettings {}),
        layer_height: LayerHeightSettings {
            layer_0_height: 300_000,
            layer_n_height: FloatOrVecOfFloats::VecOfFLoats(vec![200_000, 100_000]),
        },
        material: "PETG".to_string(),
        name: "fine".to_string(),
        perimeter: Some(PerimeterSettings {
            layer_0_feed_rate: 900_000_000,
            layer_n_feed_rate: FloatOrVecOfFloats::Float(1_200_000_000),
            layer_0_wall_line_count: 3,
            layer_n_wall_line_count: IntOrVecOfInts::VecOfInts(vec![2, 2]),
        }),
        skirt: Some(SkirtSettings {}),
        xy_resolution: None,
    };
    let copy = s.clone();
    assert_eq!(copy.name, "fine");
    assert_eq!(copy.layer_height.layer_0_height, 300_000);
    match copy.layer_height.layer_n_height {
        FloatOrVecOfFloats::VecOfFLoats(hs) => assert_eq!(hs, vec![200_000, 100_000]),
        FloatOrVecOfFloats::Float(h) => panic!("{}", h),
    }
    match copy.perimeter.unwrap().layer_n_wall_line_count {
        IntOrVecOfInts::VecOfInts(ns) => assert_eq!(ns, vec![2, 2]),
        IntOrVecOfInts::Int(n) => panic!("{}", n),
    }
}
