use regex::Regex;
use rover::gst::gst_error_fields;

fn by_regex(s: &str) -> Option<(String, String)> {
    let re = Regex::new(r"^\$[A-Z]{2}GST,(?:[^,]*,){5}([^,]+),([^,]+),[^*]+\*[0-9A-Fa-f]{2}")
        .unwrap();
    let caps = re.captures(s)?;
    Some((
        caps.get(1)?.as_str().to_string(),
        caps.get(2)?.as_str().to_string(),
    ))
}

#[test]
fn standard_gst_sentence() {
    let s = "$GNGST,172814.0,0.006,0.023,0.020,273.6,0.023,0.020,0.031*6A";
    assert_eq!(
        gst_error_fields(s),
        Some(("0.023".to_string(), "0.020".to_string()))
    );
}

#[test]
fn gst_shapes_agree_with_the_pattern() {
    let samples = [
        "$GNGST,172814.0,0.006,0.023,0.020,273.6,0.023,0.020,0.031*6A",
        "$GPGST,,,,,,1,2,3*00",
        "$GPGST,,,,,,1,2,*00",
        "$GPGST,,,,,,1,2,3*0",
        "$GPGST,,,,,,1,2,3*0g",
        "$GPGST,,,,,,,2,3*00",
        "$GPGST,,,,,,1,,3*00",
        "$gpGST,,,,,,1,2,3*00",
        "$GPGSV,,,,,,1,2,3*00",
        "$GPGST,a,b,c,d,e,f,g,h,i*fFtrailing",
        "$GPGST,,,,,,1,2,x,y,*AB",
        "$GPGST,,,,,,1,2",
        "GPGST,,,,,,1,2,3*00",
        "$GPGST,1,2,3,4,5,6\n,7\n,8*12",
        "$GPGST,,,,,,1,2,**12",
        "$GPGST,,,,,,1,2,3**2",
        "",
        "$",
    ];
    for s in samples {
        assert_eq!(gst_error_fields(s), by_regex(s), "sample {:?}", s);
    }
}
