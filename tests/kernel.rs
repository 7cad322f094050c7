use brinicle::glue::convert_flags;
use brinicle::glue::convert_unit;
use brinicle::glue::decode_event;
use brinicle::glue::get_bypass_param;
use brinicle::glue::get_has_bypass_param;
use brinicle::glue::get_kernel_allowed_channel_formats;
use brinicle::glue::get_kernel_type;
use brinicle::glue::GlueEvent;
use brinicle::kernel::parameter_change;
use brinicle::kernel::AllowedChannels;
use brinicle::kernel::AllowedFormat;
use brinicle::kernel::Data;
use brinicle::kernel::DisplayScale;
use brinicle::kernel::KernelInfo;
use brinicle::kernel::KernelType;
use brinicle::kernel::Parameters;
use brinicle::kernel::Unit;

fn info(bypass: Option<u64>) -> KernelInfo<f64> {
    KernelInfo {
        params: vec![],
        bypass_param: bypass,
        kernel_type: KernelType::Instrument,
        formats: vec![
            AllowedFormat {
                input_channels: AllowedChannels::ChannelCountAllowed(1),
                output_channels: AllowedChannels::ChannelCountAllowed(2),
            },
            AllowedFormat {
                input_channels: AllowedChannels::AnyChannelCountAllowed,
                output_channels: AllowedChannels::ChannelCountAllowed(0),
            },
        ],
    }
}

#[test]
fn parameters_set_and_get() {
    let mut p = Parameters::new(&[(0, 0.0f64), (1, 0.1)]);
    assert!(p.contains(1));
    assert!(!p.contains(2));
    assert_eq!(p.get_parameter(1), 0.1);
    p.set_parameter(1, 0.5);
    assert_eq!(p.get_parameter(1), 0.5);
    assert_eq!(p.get_parameter(0), 0.0);
}

#[test]
fn setting_defaults_keeps_store() {
    let defaults = [(0u64, 0.0f64), (1, 0.1), (7, 3.0)];
    let fresh = Parameters::new(&defaults);
    let mut p = Parameters::new(&defaults);
    for (a, v) in defaults {
        p.set_parameter(a, v);
    }
    for (a, _) in defaults {
        assert_eq!(p.get_parameter(a), fresh.get_parameter(a));
    }
}

#[test]
fn changes_route_to_parameters() {
    assert_eq!(parameter_change(&Data::ParameterChange { address: 3, value: 1.5f64 }), Some((3, 1.5)));
    assert_eq!(
        parameter_change(&Data::RampedParameterChange { address: 4, value: 2.5f64, ramp_time: 64 }),
        Some((4, 2.5))
    );
    let midi: Data<f64> = Data::MIDIMessage { cable: 0, valid_bytes: 3, bytes: [0x90, 60, 64] };
    assert_eq!(parameter_change(&midi), None);
}

#[test]
fn unit_codes() {
    assert_eq!(convert_unit(&Unit::Generic), 0);
    assert_eq!(convert_unit(&Unit::Percent), 3);
    assert_eq!(convert_unit(&Unit::Second), 4);
    assert_eq!(convert_unit(&Unit::SampleFrames), 5);
    assert_eq!(convert_unit(&Unit::Rate), 7);
    assert_eq!(convert_unit(&Unit::Custom("dB".to_string())), 26);
}

#[test]
fn flag_words() {
    assert_eq!(convert_flags(true, false, &DisplayScale::Linear), 1 << 30);
    assert_eq!(convert_flags(false, true, &DisplayScale::Linear), 1 << 31);
    assert_eq!(convert_flags(false, false, &DisplayScale::Logarithmic), 1 << 22);
    assert_eq!(convert_flags(true, true, &DisplayScale::Logarithmic), (1 << 30) | (1 << 31) | (1 << 22));
}

#[test]
fn formats_and_bypass() {
    let with = info(Some(5));
    assert_eq!(get_kernel_allowed_channel_formats(&with), vec![(1, 2), (-1, 0)]);
    assert_eq!(get_has_bypass_param(&with), 1);
    assert_eq!(get_bypass_param(&with), 5);
    assert_eq!(get_kernel_type(&with), 1);
    let without = info(None);
    assert_eq!(get_has_bypass_param(&without), 0);
    assert_eq!(get_bypass_param(&without), 0);
}

#[test]
fn event_records_decode() {
    let mut ge = GlueEvent {
        time: 12,
        ty: 0,
        param_addr: 9,
        param_value: 0.25f64,
        param_ramp_time: 32,
        midi_cable: 1,
        midi_valid_bytes: 3,
        midi_bytes: [0x90, 60, 64],
    };
    let e = decode_event(&ge).unwrap();
    assert_eq!(e.time, 12);
    assert!(matches!(e.data, Data::ParameterChange { address: 9, value } if value == 0.25));
    ge.ty = 1;
    assert!(matches!(
        decode_event(&ge).unwrap().data,
        Data::RampedParameterChange { address: 9, ramp_time: 32, .. }
    ));
    ge.ty = 2;
    assert!(matches!(
        decode_event(&ge).unwrap().data,
        Data::MIDIMessage { cable: 1, valid_bytes: 3, bytes: [0x90, 60, 64] }
    ));
    ge.ty = 17;
    assert!(decode_event(&ge).is_none());
    ge.ty = 3;
    assert!(decode_event(&ge).is_none());
}
