//! Logarithm, exponential and powers.
use crate::decimal::{Decimal, MAX_SIG};
use crate::decimal::{cut_spec, sub_spec};
use crate::iterate::{norm, int_dec, cst, ln_down, ln_r, ln_rebuild, ln_series, ln_spec, ln_up, dec_of, div_dec, exp_taylor, mul_dec, one_dec, lemma_gives_of, pow_int_spec, pow_spec, pow_steps, quick_range};
use vstd::arithmetic::power::*;
use vstd::prelude::*;

verus! {

/// The parts of `e^i` for `0 <= i <= 290`.
pub open spec fn natural_exp_parts(i: usize) -> (int, int) {
    match i {
        0 => (1, 0),
        1 => (27182818284590452353602874713526624975, 37),
        2 => (73890560989306502272304274605750078133, 37),
        3 => (20085536923187667740928529654581717900, 36),
        4 => (54598150033144239078110261202860878404, 36),
        5 => (14841315910257660342111558004055227960, 35),
        6 => (40342879349273512260838718054338827962, 35),
        7 => (10966331584284585992637202382881214326, 34),
        8 => (29809579870417282747435920994528886736, 34),
        9 => (81030839275753840077099966894327599646, 34),
        10 => (22026465794806716516957900645284244366, 33),
        11 => (59874141715197818455326485792257781616, 33),
        12 => (16275479141900392080800520489848678316, 32),
        13 => (44241339200892050332610277594908828183, 32),
        14 => (12026042841647767777492367707678594496, 31),
        15 => (32690173724721106393018550460917213156, 31),
        16 => (88861105205078726367630237407814503509, 31),
        17 => (24154952753575298214775435180385823883, 30),
        18 => (65659969137330511138786503259060033570, 30),
        19 => (17848230096318726084491003378872270387, 29),
        20 => (48516519540979027796910683054154055870, 29),
        21 => (13188157344832146972099988837453027850, 28),
        22 => (35849128461315915616811599459784206894, 28),
        23 => (97448034462489026000346326848229752775, 28),
        24 => (26489122129843472294139162152811882340, 27),
        25 => (72004899337385872524161351466126157931, 27),
        26 => (19572960942883876426977639787609534281, 26),
        27 => (53204824060179861668374730434117744164, 26),
        28 => (14462570642914751736770474229969288564, 25),
        29 => (39313342971440420743886205808435276867, 25),
        30 => (10686474581524462146990468650741401654, 24),
        31 => (29048849665247425231085682111679825660, 24),
        32 => (78962960182680695160978022635108224222, 24),
        33 => (21464357978591606462429776153126088037, 23),
        34 => (58346174252745488140290273461039101919, 23),
        35 => (15860134523134307281296446257746601247, 22),
        36 => (43112315471151952271134222928569253911, 22),
        37 => (11719142372802611308772939791190194524, 21),
        38 => (31855931757113756220328671701298645997, 21),
        39 => (86593400423993746953606932719264934249, 21),
        40 => (23538526683701998540789991074903480449, 20),
        41 => (63984349353005494922266340351557081880, 20),
        42 => (17392749415205010473946813036112352260, 19),
        43 => (47278394682293465614744575627442803712, 19),
        44 => (12851600114359308275809299632143099259, 18),
        45 => (34934271057485095348034797233406099546, 18),
        46 => (94961194206024488745133649117118323116, 18),
        47 => (25813128861900673962328580021527338043, 17),
        48 => (70167359120976317386547159988611740555, 17),
        49 => (19073465724950996905250998409538484479, 16),
        50 => (51847055285870724640874533229334853872, 16),
        51 => (14093490824269387964492143312370168789, 15),
        52 => (38310080007165768493035695487861993900, 15),
        53 => (10413759433029087797183472933493796442, 14),
        54 => (28307533032746939004420635480140745403, 14),
        55 => (76947852651420171381827455901293939935, 14),
        56 => (20916594960129961539070711572146737783, 13),
        57 => (56857199993359322226403488206332533049, 13),
        58 => (15455389355901039303530766911174620071, 12),
        59 => (42012104037905142549565934307191617692, 12),
        60 => (11420073898156842836629571831447656295, 11),
        61 => (31042979357019199087073421411071003730, 11),
        62 => (84383566687414544890733294803731179603, 11),
        63 => (22937831594696098790993528402686136005, 10),
        64 => (62351490808116168829092387089284697469, 10),
        65 => (16948892444103337141417836114371974954, 9),
        66 => (46071866343312915426773184428060086892, 9),
        67 => (12523631708422137805135219607443657677, 8),
        68 => (34042760499317405213769071870043505954, 8),
        69 => (92537817255877876002423979166873458740, 8),
        70 => (25154386709191670062657811742521129623, 7),
        71 => (68376712297627438667558928266777109561, 7),
        72 => (18586717452841279803403701812545411949, 6),
        73 => (50523936302761041945570383321857646506, 6),
        74 => (13733829795401761877841885298085389320, 5),
        75 => (37332419967990016402549083172647001445, 5),
        76 => (10148003881138887278324617841317169760, 4),
        77 => (27585134545231702062864698199026619434, 4),
        78 => (74984169969901204346756305912240604567, 4),
        79 => (20382810665126687668323137537172632374, 3),
        80 => (55406223843935100525711733958316612937, 3),
        81 => (15060973145850305483525941301676749817, 2),
        82 => (40939969621274546966609142293278290448, 2),
        83 => (11128637547917594120870714781839408062, 1),
        84 => (30250773222011423382665663964434287432, 1),
        85 => (82230127146229135103043280164077746957, 1),
        86 => (22352466037347150474430657323327147399, 0),
        87 => (60760302250568721495223289381302760758, 0),
        88 => (16516362549940018555283297962648587672, -1),
        89 => (44896128191743452462842455796453162784, -1),
        90 => (12204032943178408020027100351363697548, -2),
        91 => (33174000983357426257555161078525919101, -2),
        92 => (90176284050342989314009959821709052567, -2),
        93 => (24512455429200857855527729431109153420, -3),
        94 => (66631762164108958342448140502408732643, -3),
        95 => (18112390828890232821937987580988159254, -4),
        96 => (49234582860120583997548620591133044956, -4),
        97 => (13383347192042695004617364087061150290, -5),
        98 => (36379709476088045792877438267601857313, -5),
        99 => (98890303193469467705600309671380371021, -5),
        100 => (26881171418161354484126255515800135886, -6),
        101 => (73070599793680672726476826340615135883, -6),
        102 => (19862648361376543258740468906137709930, -7),
        103 => (53992276105801688697616842371936818967, -7),
        104 => (14676622301554423285107021120870470922, -8),
        105 => (39895195705472158507637572787300953989, -8),
        106 => (10844638552900230813361001028568739551, -9),
        107 => (29478783914555093773878202487079276618, -9),
        108 => (80131642640005911410561058362935555141, -9),
        109 => (21782038807290206355539393313936824934, -10),
        110 => (59209720276646702989552288155880397734, -10),
        111 => (16094870669615180549262332993373505801, -11),
        112 => (43750394472613410734625746750879389186, -11),
        113 => (11892590228282008819681954096389267312, -12),
        114 => (32327411910848593114262354205829189194, -12),
        115 => (87875016358370231131069738030496383831, -12),
        116 => (23886906014249914254626392949441611667, -13),
        117 => (64931342556644621362249507087712085619, -13),
        118 => (17650168856917655832911782056447182390, -14),
        119 => (47978133272993021860034882895011331584, -14),
        120 => (13041808783936322797338790280986488115, -15),
        121 => (35451311827611664751894074212478186941, -15),
        122 => (96366656736032012717638730141942241231, -15),
        123 => (26195173187490626761889810253746390880, -16),
        124 => (71205863268893377088330680682701942197, -16),
        125 => (19355760420357225687206244905274872200, -17),
        126 => (52614411826663857451767767041616346183, -17),
        127 => (14302079958348104463583671072905261088, -18),
        128 => (38877084059945950922226736883574780745, -18),
        129 => (10567887114362588125648834960427354587, -19),
        130 => (28726495508178319332673332249621538192, -19),
        131 => (78086710735191511717214963161789844250, -19),
        132 => (21226168683560893890870118295564590878, -20),
        133 => (57698708620330031794130831485493325609, -20),
        134 => (15684135116819639406725212333317378882, -21),
        135 => (42633899483147210448936866880765989362, -21),
        136 => (11589095424138854283480495676005460415, -22),
        137 => (31502427499714519184111642911336978953, -22),
        138 => (85632476224822491931954909086237584537, -22),
        139 => (23277320404788620254741750385140984218, -23),
        140 => (63274317071555853643430245123511451556, -23),
        141 => (17199742630376622641833783925547830056, -24),
        142 => (46753747846325154027207734100637066905, -24),
        143 => (12708986318302188795555166499146091281, -25),
        144 => (34546606567175463231258517866889865270, -25),
        145 => (93907412866476978131540504016909901172, -25),
        146 => (25526681395254551047668755808654353440, -26),
        147 => (69388714177584033016228037440452491187, -26),
        148 => (18861808084906520052196148181812219044, -27),
        149 => (51271710169083297668258887684658163998, -27),
        150 => (13937095806663796973183419371414574787, -28),
        151 => (37884954272746958042494750441949388081, -28),
        152 => (10298198277160991943993878773913738166, -29),
        153 => (27993405242674970683739228910895090969, -29),
        154 => (76093964787853542218200718174787272690, -29),
        155 => (20684484173822473091270347966282423297, -30),
        156 => (56226257460750335807897650819666306371, -30),
        157 => (15283881393781745666100414040841103028, -31),
        158 => (41545897061040224373905771068319348361, -31),
        159 => (11293345702805569478727022021871312858, -32),
        160 => (30698496406442424667364570301654957343, -32),
        161 => (83447164942647743609658358092023252638, -32),
        162 => (22683291210002404713058390312611402982, -33),
        163 => (61659578305794325320049670543781654770, -33),
        164 => (16760811125908827725861073497722332472, -34),
        165 => (45560608313792156880112864411796691453, -34),
        166 => (12384657367292132198269856467846840036, -35),
        167 => (33664989073201642477955778901752989037, -35),
        168 => (91510928052956339360089438336198973142, -35),
        169 => (24875249283177429446603994479964329509, -36),
        170 => (67617938104850097226297739817614724043, -36),
        171 => (18380461242828247026619661332259011810, -37),
        172 => (49963273795075782374799992291440821058, -37),
        173 => (13581425924747849789093255011954118328, -38),
        174 => (36918143295804664423920014322334714971, -38),
        175 => (10035391806143294571946733464755740501, -39),
        176 => (27279023188106115192557593199527116730, -39),
        177 => (74152073030341784283386937576609008214, -39),
        178 => (20156623266094612066329318409141309108, -40),
        179 => (54791382747319794379865564450966140139, -40),
        180 => (14893842007818383595644410230322886973, -41),
        181 => (40485660085792693262271426689569678698, -41),
        182 => (11005143412437994843280976031210742493, -42),
        183 => (29915081357615969207184701601447122427, -42),
        184 => (81317622051281434061126712044925707902, -42),
        185 => (22104421435549887327561037093210488312, -43),
        186 => (60086047116855861250341632178539649714, -43),
        187 => (16333081002168329377271943881088378495, -44),
        188 => (44397917290943821356155881988414973276, -44),
        189 => (12068605179340023095364473314473432497, -45),
        190 => (32805870153846701518250084137059135841, -45),
        191 => (89175600705988431420770803324912086042, -45),
        192 => (24240441494100795852378097352461489720, -46),
        193 => (65892351627238821736753930934534639373, -46),
        194 => (17911398206275708900431827624144225532, -47),
        195 => (48688228266413197067093362018659672146, -47),
        196 => (13234832615645703553069383005626040404, -48),
        197 => (35976005001806811307586628488491091980, -48),
        198 => (97792920656963176027414937748815917871, -48),
        199 => (26582871917376019734003283472389741150, -49),
        200 => (72259737681257492581774770421893056951, -49),
        201 => (19642233186817958656484864137420231201, -50),
        202 => (53393125542082459716222599802082679919, -50),
        203 => (14513756292567525940523654914390132839, -51),
        204 => (39452479992769427900327573211143818566, -51),
        205 => (10724295945198918021924451209369968217, -52),
        206 => (29151658790851239660496155224556382547, -52),
        207 => (79242424360609307491188688802264059684, -52),
        208 => (21540324218248465690209815988756000148, -53),
        209 => (58552671901581093475081587475320346051, -53),
        210 => (15916266403779241591571863407774423364, -54),
        211 => (43264897742306309199371472477969207063, -54),
        212 => (11760618534305001227335647241278102208, -55),
        213 => (31968675653239935348846785115930182070, -55),
        214 => (86899870108103213822063274684049309002, -55),
        215 => (23621833781030833300746567469515129092, -56),
        216 => (64210801521856135516771541362226454717, -56),
        217 => (17454305496765194050281862479081601620, -57),
        218 => (47445721460229655544587842889161196570, -57),
        219 => (12897084248347162974810234147016917437, -58),
        220 => (35057909752387477224025060891275483360, -58),
        221 => (95297279023672025386355634986304892255, -58),
        222 => (25904486187163901031830171287130712546, -59),
        223 => (70415694078135969991088372949671264959, -59),
        224 => (19140970165092820820108477320064452781, -60),
        225 => (52030551378848545923020205358078977737, -60),
        226 => (14143370233782872265039837168370554989, -61),
        227 => (38445666299660540093457531706674996418, -61),
        228 => (10450615608536754863982177507098957249, -62),
        229 => (28407718504895927718534013347769901830, -62),
        230 => (77220184999838357175621252140277020406, -62),
        231 => (20990622567530634724568039312619468559, -63),
        232 => (57058427893360872481970148326895352874, -63),
        233 => (15510088770296358097556054518881247548, -64),
        234 => (42160792462083288741186917596094351517, -64),
        235 => (11460491602311409370637865042895610414, -65),
        236 => (31152846067770590954201464312400440172, -65),
        237 => (84682215370802619418949577677244718361, -65),
        238 => (23019012723610800962705119766260408375, -66),
        239 => (62572163995658794914917604846876973579, -66),
        240 => (17008877635675862685398902860714557440, -67),
        241 => (46234922999541146273426274861568776275, -67),
        242 => (12567955102985587136353369613287969585, -68),
        243 => (34163243977334849966907467619116852824, -68),
        244 => (92865325304802240908397570249090596499, -68),
        245 => (25243412626998187770632793234418799940, -69),
        246 => (68618709832262784296500189663439273040, -69),
        247 => (18652499202934394647893057141276968924, -70),
        248 => (50702749638683390134216749367456409844, -70),
        249 => (13782436299574148088857901819149382333, -71),
        250 => (37464546145026732603499548122029201501, -71),
        251 => (10183919499749154121311809801154593781, -72),
        252 => (27682763318657855929985771603963318292, -72),
        253 => (75249552490640263726958791405721841505, -72),
        254 => (20454949113498251750794190253329225813, -73),
        255 => (55602316477276754174041540473381702051, -73),
        256 => (15114276650041035425200896657072865078, -74),
        257 => (41084863568109398732746435014199662608, -74),
        258 => (11168023806191082975759894188368741636, -75),
        259 => (30357836172167242865270564060096681892, -75),
        260 => (82521154418138915708209187078469436590, -75),
        261 => (22431575451828987090132598854038981998, -76),
        262 => (60975343934414732803540925731945597709, -76),
        263 => (16574816940096003310288868055969816163, -77),
        264 => (45055023698298121117106125112845233389, -77),
        265 => (12247225219987543111692123050999620531, -78),
        266 => (33291409764537471210498902650647395181, -78),
        267 => (90495434206726229847410205869155592671, -78),
        268 => (24599209436265500385962442739613565585, -79),
        269 => (66867584005058783767836195501715462777, -79),
        270 => (18176493851390999782546650445313340672, -80),
        271 => (49408832941333720129685111047602318635, -80),
        272 => (13430713274979613085859250297613421779, -81),
        273 => (36508463838620754258131757683218532187, -81),
        274 => (99240293837476957258975386473680449662, -81),
        275 => (26976308738934978232765417912571366677, -82),
        276 => (73329209843947893397917976493127739665, -82),
        277 => (19932945861406369879404057817936726125, -83),
        278 => (54183364522718865591003756988762312406, -83),
        279 => (14728565518687920080874372478970627032, -84),
        280 => (40036392008717845384002607853055449617, -84),
        281 => (10883019687436065167926658665346876179, -85),
        282 => (29583114655119494191648535413124937628, -85),
        283 => (80415242996231796059259460914427322527, -85),
        284 => (21859129376777539785144693723458114365, -86),
        285 => (59419274170829680786039665041625326132, -86),
        286 => (16151833323879222366041833857187834774, -87),
        287 => (43905235020600150754042953190395882915, -87),
        288 => (11934680253072108439235558933754921818, -88),
        289 => (32441824460394911649740723321265334285, -88),
        290 => (88186021912749658986094822427733469383, -88),
        _ => (0, 0),
    }
}

/// The parts of `e^-(291 + i)` for `0 <= i <= 8`.
pub open spec fn natural_exp_neg_parts(i: usize) -> (int, int) {
    match i {
        0 => (41716298478166806118243377939293045745, 164),
        1 => (15346568571889094399003486191226211569, 164),
        2 => (56456870701257797059912015304055553681, 165),
        3 => (20769322043867093362333818538068856442, 165),
        4 => (76406065870075445735958388880036815267, 166),
        5 => (28108220814391766921916452972683068317, 166),
        6 => (10340436565521946602575863724595250916, 166),
        7 => (38040340251929620404917847776950070293, 167),
        8 => (13994259113851392172977837187029463838, 167),
        _ => (0, 0),
    }
}

/// `|x|`.
pub open spec fn abs_dec(x: Decimal) -> Decimal {
    Decimal::spec_from_parts(x.m(), x.e(), false)
}

/// `-x`, zero staying zero.
pub open spec fn neg_dec(x: Decimal) -> Decimal {
    if x.m() == 0 {
        Decimal::spec_from_parts(0, 0, false)
    } else {
        Decimal::spec_from_parts(x.m(), x.e(), !x.s())
    }
}

/// `|x|^b` as `e^(b * ln|x|)`, negated for a negative `x` and an odd integer `b`.
pub open spec fn pow_exp_ln_spec(x: Decimal, b: Decimal) -> Option<Decimal> {
    match ln_spec(abs_dec(x)) {
        None => None,
        Some(l) => match mul_dec(l, b) {
            None => None,
            Some(e) => match exp_spec(e) {
                None => None,
                Some(res) => match dec_of(crate::decimal::rem_spec(b, cst(2, 0))) {
                    None => None,
                    Some(rm) => if x.s() && abs_dec(rm).cmp_spec(&one_dec()) == 0 {
                        Some(neg_dec(res))
                    } else {
                        Some(res)
                    },
                },
            },
        },
    }
}

/// `x^n` for an integral `n`: by squaring within `[-32768, 65535]`, else through `ln`/`exp`.
pub open spec fn pow_integral_spec(x: Decimal, n: Decimal) -> Option<Decimal> {
    if n.s() {
        if n.cmp_spec(&int_dec(-32768)) < 0 {
            pow_exp_ln_spec(x, n)
        } else {
            pow_int_spec(x, -(if n.m() <= 32768 { n.m() as int } else { 32768 }))
        }
    } else if n.cmp_spec(&int_dec(65535)) > 0 {
        pow_exp_ln_spec(x, n)
    } else {
        pow_spec(x, if n.m() <= 65535 { n.m() } else { 65535 })
    }
}

/// `x^y`: one for a zero exponent; for a zero base zero, or `None` for a negative exponent;
/// `x` for an exponent of one; for an integral `y` by `pow_integral_spec`; a negative base to
/// a fraction is `None`; otherwise `x^a * x^b` with `a` the integral and `b` the fractional
/// part of `y`.
pub open spec fn checked_pow_spec(x: Decimal, y: Decimal) -> Option<Decimal> {
    if y.m() == 0 {
        Some(one_dec())
    } else if x.m() == 0 {
        if y.s() {
            None
        } else {
            Some(Decimal::spec_from_parts(0, 0, false))
        }
    } else if x.cmp_spec(&one_dec()) == 0 {
        Some(one_dec())
    } else if y.cmp_spec(&one_dec()) == 0 {
        Some(x)
    } else {
        let n = norm(y);
        if n.e() <= 0 {
            pow_integral_spec(x, n)
        } else if x.s() {
            None
        } else {
            let c = cut_spec(n, 0, false);
            let a = Decimal::spec_from_parts(c.0 as nat, c.1, c.2);
            match dec_of(sub_spec(n, a)) {
                None => None,
                Some(b) => match pow_integral_spec(x, a) {
                    None => None,
                    Some(pa) => match pow_exp_ln_spec(x, b) {
                        None => None,
                        Some(pb) => mul_dec(pa, pb),
                    },
                },
            }
        }
    }
}

/// The decimal of table parts.
pub open spec fn table_dec(p: (int, int)) -> Decimal {
    Decimal::spec_from_parts(p.0 as nat, p.1, false)
}

/// `e^x`: one at zero; `None` from 291; zero from -300 down; otherwise `e^a * e^b` for the
/// integral part `a` (from the tables, or one over a table entry) and the fraction `b` (by
/// the Taylor series).
pub open spec fn exp_spec(x: Decimal) -> Option<Decimal> {
    if x.m() == 0 {
        Some(one_dec())
    } else if x.cmp_spec(&Decimal::spec_from_parts(291, 0, false)) >= 0 {
        None
    } else if x.cmp_spec(&Decimal::spec_from_parts(300, 0, true)) <= 0 {
        Some(Decimal::spec_from_parts(0, 0, false))
    } else {
        let c = cut_spec(x, 0, false);
        let a = Decimal::spec_from_parts(c.0 as nat, c.1, c.2);
        match dec_of(sub_spec(x, a)) {
            None => None,
            Some(b) => if !a.s() && a.m() >= 291 {
                None
            } else if a.s() && a.m() >= 300 {
                Some(Decimal::spec_from_parts(0, 0, false))
            } else {
                let ea = if !a.s() {
                    Some(table_dec(natural_exp_parts(a.m() as usize)))
                } else if a.m() < 291 {
                    div_dec(one_dec(), table_dec(natural_exp_parts(a.m() as usize)))
                } else {
                    Some(table_dec(natural_exp_neg_parts((a.m() - 291) as usize)))
                };
                match ea {
                    None => None,
                    Some(ea) => if b.m() == 0 {
                        Some(ea)
                    } else {
                        match exp_taylor(b) {
                            None => None,
                            Some(eb) => mul_dec(ea, eb),
                        }
                    },
                }
            },
        }
    }
}

/// `e^i` for `0 <= i <= 290`, to 38 significant digits.
fn natural_exp(i: usize) -> (r: Decimal)
    requires
        i < 291,
    ensures
        r.wf(),
        r == table_dec(natural_exp_parts(i)),
{
    let (m, e): (u128, i16) = match i {
        0 => (1, 0),
        1 => (27182818284590452353602874713526624975, 37),
        2 => (73890560989306502272304274605750078133, 37),
        3 => (20085536923187667740928529654581717900, 36),
        4 => (54598150033144239078110261202860878404, 36),
        5 => (14841315910257660342111558004055227960, 35),
        6 => (40342879349273512260838718054338827962, 35),
        7 => (10966331584284585992637202382881214326, 34),
        8 => (29809579870417282747435920994528886736, 34),
        9 => (81030839275753840077099966894327599646, 34),
        10 => (22026465794806716516957900645284244366, 33),
        11 => (59874141715197818455326485792257781616, 33),
        12 => (16275479141900392080800520489848678316, 32),
        13 => (44241339200892050332610277594908828183, 32),
        14 => (12026042841647767777492367707678594496, 31),
        15 => (32690173724721106393018550460917213156, 31),
        16 => (88861105205078726367630237407814503509, 31),
        17 => (24154952753575298214775435180385823883, 30),
        18 => (65659969137330511138786503259060033570, 30),
        19 => (17848230096318726084491003378872270387, 29),
        20 => (48516519540979027796910683054154055870, 29),
        21 => (13188157344832146972099988837453027850, 28),
        22 => (35849128461315915616811599459784206894, 28),
        23 => (97448034462489026000346326848229752775, 28),
        24 => (26489122129843472294139162152811882340, 27),
        25 => (72004899337385872524161351466126157931, 27),
        26 => (19572960942883876426977639787609534281, 26),
        27 => (53204824060179861668374730434117744164, 26),
        28 => (14462570642914751736770474229969288564, 25),
        29 => (39313342971440420743886205808435276867, 25),
        30 => (10686474581524462146990468650741401654, 24),
        31 => (29048849665247425231085682111679825660, 24),
        32 => (78962960182680695160978022635108224222, 24),
        33 => (21464357978591606462429776153126088037, 23),
        34 => (58346174252745488140290273461039101919, 23),
        35 => (15860134523134307281296446257746601247, 22),
        36 => (43112315471151952271134222928569253911, 22),
        37 => (11719142372802611308772939791190194524, 21),
        38 => (31855931757113756220328671701298645997, 21),
        39 => (86593400423993746953606932719264934249, 21),
        40 => (23538526683701998540789991074903480449, 20),
        41 => (63984349353005494922266340351557081880, 20),
        42 => (17392749415205010473946813036112352260, 19),
        43 => (47278394682293465614744575627442803712, 19),
        44 => (12851600114359308275809299632143099259, 18),
        45 => (34934271057485095348034797233406099546, 18),
        46 => (94961194206024488745133649117118323116, 18),
        47 => (25813128861900673962328580021527338043, 17),
        48 => (70167359120976317386547159988611740555, 17),
        49 => (19073465724950996905250998409538484479, 16),
        50 => (51847055285870724640874533229334853872, 16),
        51 => (14093490824269387964492143312370168789, 15),
        52 => (38310080007165768493035695487861993900, 15),
        53 => (10413759433029087797183472933493796442, 14),
        54 => (28307533032746939004420635480140745403, 14),
        55 => (76947852651420171381827455901293939935, 14),
        56 => (20916594960129961539070711572146737783, 13),
        57 => (56857199993359322226403488206332533049, 13),
        58 => (15455389355901039303530766911174620071, 12),
        59 => (42012104037905142549565934307191617692, 12),
        60 => (11420073898156842836629571831447656295, 11),
        61 => (31042979357019199087073421411071003730, 11),
        62 => (84383566687414544890733294803731179603, 11),
        63 => (22937831594696098790993528402686136005, 10),
        64 => (62351490808116168829092387089284697469, 10),
        65 => (16948892444103337141417836114371974954, 9),
        66 => (46071866343312915426773184428060086892, 9),
        67 => (12523631708422137805135219607443657677, 8),
        68 => (34042760499317405213769071870043505954, 8),
        69 => (92537817255877876002423979166873458740, 8),
        70 => (25154386709191670062657811742521129623, 7),
        71 => (68376712297627438667558928266777109561, 7),
        72 => (18586717452841279803403701812545411949, 6),
        73 => (50523936302761041945570383321857646506, 6),
        74 => (13733829795401761877841885298085389320, 5),
        75 => (37332419967990016402549083172647001445, 5),
        76 => (10148003881138887278324617841317169760, 4),
        77 => (27585134545231702062864698199026619434, 4),
        78 => (74984169969901204346756305912240604567, 4),
        79 => (20382810665126687668323137537172632374, 3),
        80 => (55406223843935100525711733958316612937, 3),
        81 => (15060973145850305483525941301676749817, 2),
        82 => (40939969621274546966609142293278290448, 2),
        83 => (11128637547917594120870714781839408062, 1),
        84 => (30250773222011423382665663964434287432, 1),
        85 => (82230127146229135103043280164077746957, 1),
        86 => (22352466037347150474430657323327147399, 0),
        87 => (60760302250568721495223289381302760758, 0),
        88 => (16516362549940018555283297962648587672, -1),
        89 => (44896128191743452462842455796453162784, -1),
        90 => (12204032943178408020027100351363697548, -2),
        91 => (33174000983357426257555161078525919101, -2),
        92 => (90176284050342989314009959821709052567, -2),
        93 => (24512455429200857855527729431109153420, -3),
        94 => (66631762164108958342448140502408732643, -3),
        95 => (18112390828890232821937987580988159254, -4),
        96 => (49234582860120583997548620591133044956, -4),
        97 => (13383347192042695004617364087061150290, -5),
        98 => (36379709476088045792877438267601857313, -5),
        99 => (98890303193469467705600309671380371021, -5),
        100 => (26881171418161354484126255515800135886, -6),
        101 => (73070599793680672726476826340615135883, -6),
        102 => (19862648361376543258740468906137709930, -7),
        103 => (53992276105801688697616842371936818967, -7),
        104 => (14676622301554423285107021120870470922, -8),
        105 => (39895195705472158507637572787300953989, -8),
        106 => (10844638552900230813361001028568739551, -9),
        107 => (29478783914555093773878202487079276618, -9),
        108 => (80131642640005911410561058362935555141, -9),
        109 => (21782038807290206355539393313936824934, -10),
        110 => (59209720276646702989552288155880397734, -10),
        111 => (16094870669615180549262332993373505801, -11),
        112 => (43750394472613410734625746750879389186, -11),
        113 => (11892590228282008819681954096389267312, -12),
        114 => (32327411910848593114262354205829189194, -12),
        115 => (87875016358370231131069738030496383831, -12),
        116 => (23886906014249914254626392949441611667, -13),
        117 => (64931342556644621362249507087712085619, -13),
        118 => (17650168856917655832911782056447182390, -14),
        119 => (47978133272993021860034882895011331584, -14),
        120 => (13041808783936322797338790280986488115, -15),
        121 => (35451311827611664751894074212478186941, -15),
        122 => (96366656736032012717638730141942241231, -15),
        123 => (26195173187490626761889810253746390880, -16),
        124 => (71205863268893377088330680682701942197, -16),
        125 => (19355760420357225687206244905274872200, -17),
        126 => (52614411826663857451767767041616346183, -17),
        127 => (14302079958348104463583671072905261088, -18),
        128 => (38877084059945950922226736883574780745, -18),
        129 => (10567887114362588125648834960427354587, -19),
        130 => (28726495508178319332673332249621538192, -19),
        131 => (78086710735191511717214963161789844250, -19),
        132 => (21226168683560893890870118295564590878, -20),
        133 => (57698708620330031794130831485493325609, -20),
        134 => (15684135116819639406725212333317378882, -21),
        135 => (42633899483147210448936866880765989362, -21),
        136 => (11589095424138854283480495676005460415, -22),
        137 => (31502427499714519184111642911336978953, -22),
        138 => (85632476224822491931954909086237584537, -22),
        139 => (23277320404788620254741750385140984218, -23),
        140 => (63274317071555853643430245123511451556, -23),
        141 => (17199742630376622641833783925547830056, -24),
        142 => (46753747846325154027207734100637066905, -24),
        143 => (12708986318302188795555166499146091281, -25),
        144 => (34546606567175463231258517866889865270, -25),
        145 => (93907412866476978131540504016909901172, -25),
        146 => (25526681395254551047668755808654353440, -26),
        147 => (69388714177584033016228037440452491187, -26),
        148 => (18861808084906520052196148181812219044, -27),
        149 => (51271710169083297668258887684658163998, -27),
        150 => (13937095806663796973183419371414574787, -28),
        151 => (37884954272746958042494750441949388081, -28),
        152 => (10298198277160991943993878773913738166, -29),
        153 => (27993405242674970683739228910895090969, -29),
        154 => (76093964787853542218200718174787272690, -29),
        155 => (20684484173822473091270347966282423297, -30),
        156 => (56226257460750335807897650819666306371, -30),
        157 => (15283881393781745666100414040841103028, -31),
        158 => (41545897061040224373905771068319348361, -31),
        159 => (11293345702805569478727022021871312858, -32),
        160 => (30698496406442424667364570301654957343, -32),
        161 => (83447164942647743609658358092023252638, -32),
        162 => (22683291210002404713058390312611402982, -33),
        163 => (61659578305794325320049670543781654770, -33),
        164 => (16760811125908827725861073497722332472, -34),
        165 => (45560608313792156880112864411796691453, -34),
        166 => (12384657367292132198269856467846840036, -35),
        167 => (33664989073201642477955778901752989037, -35),
        168 => (91510928052956339360089438336198973142, -35),
        169 => (24875249283177429446603994479964329509, -36),
        170 => (67617938104850097226297739817614724043, -36),
        171 => (18380461242828247026619661332259011810, -37),
        172 => (49963273795075782374799992291440821058, -37),
        173 => (13581425924747849789093255011954118328, -38),
        174 => (36918143295804664423920014322334714971, -38),
        175 => (10035391806143294571946733464755740501, -39),
        176 => (27279023188106115192557593199527116730, -39),
        177 => (74152073030341784283386937576609008214, -39),
        178 => (20156623266094612066329318409141309108, -40),
        179 => (54791382747319794379865564450966140139, -40),
        180 => (14893842007818383595644410230322886973, -41),
        181 => (40485660085792693262271426689569678698, -41),
        182 => (11005143412437994843280976031210742493, -42),
        183 => (29915081357615969207184701601447122427, -42),
        184 => (81317622051281434061126712044925707902, -42),
        185 => (22104421435549887327561037093210488312, -43),
        186 => (60086047116855861250341632178539649714, -43),
        187 => (16333081002168329377271943881088378495, -44),
        188 => (44397917290943821356155881988414973276, -44),
        189 => (12068605179340023095364473314473432497, -45),
        190 => (32805870153846701518250084137059135841, -45),
        191 => (89175600705988431420770803324912086042, -45),
        192 => (24240441494100795852378097352461489720, -46),
        193 => (65892351627238821736753930934534639373, -46),
        194 => (17911398206275708900431827624144225532, -47),
        195 => (48688228266413197067093362018659672146, -47),
        196 => (13234832615645703553069383005626040404, -48),
        197 => (35976005001806811307586628488491091980, -48),
        198 => (97792920656963176027414937748815917871, -48),
        199 => (26582871917376019734003283472389741150, -49),
        200 => (72259737681257492581774770421893056951, -49),
        201 => (19642233186817958656484864137420231201, -50),
        202 => (53393125542082459716222599802082679919, -50),
        203 => (14513756292567525940523654914390132839, -51),
        204 => (39452479992769427900327573211143818566, -51),
        205 => (10724295945198918021924451209369968217, -52),
        206 => (29151658790851239660496155224556382547, -52),
        207 => (79242424360609307491188688802264059684, -52),
        208 => (21540324218248465690209815988756000148, -53),
        209 => (58552671901581093475081587475320346051, -53),
        210 => (15916266403779241591571863407774423364, -54),
        211 => (43264897742306309199371472477969207063, -54),
        212 => (11760618534305001227335647241278102208, -55),
        213 => (31968675653239935348846785115930182070, -55),
        214 => (86899870108103213822063274684049309002, -55),
        215 => (23621833781030833300746567469515129092, -56),
        216 => (64210801521856135516771541362226454717, -56),
        217 => (17454305496765194050281862479081601620, -57),
        218 => (47445721460229655544587842889161196570, -57),
        219 => (12897084248347162974810234147016917437, -58),
        220 => (35057909752387477224025060891275483360, -58),
        221 => (95297279023672025386355634986304892255, -58),
        222 => (25904486187163901031830171287130712546, -59),
        223 => (70415694078135969991088372949671264959, -59),
        224 => (19140970165092820820108477320064452781, -60),
        225 => (52030551378848545923020205358078977737, -60),
        226 => (14143370233782872265039837168370554989, -61),
        227 => (38445666299660540093457531706674996418, -61),
        228 => (10450615608536754863982177507098957249, -62),
        229 => (28407718504895927718534013347769901830, -62),
        230 => (77220184999838357175621252140277020406, -62),
        231 => (20990622567530634724568039312619468559, -63),
        232 => (57058427893360872481970148326895352874, -63),
        233 => (15510088770296358097556054518881247548, -64),
        234 => (42160792462083288741186917596094351517, -64),
        235 => (11460491602311409370637865042895610414, -65),
        236 => (31152846067770590954201464312400440172, -65),
        237 => (84682215370802619418949577677244718361, -65),
        238 => (23019012723610800962705119766260408375, -66),
        239 => (62572163995658794914917604846876973579, -66),
        240 => (17008877635675862685398902860714557440, -67),
        241 => (46234922999541146273426274861568776275, -67),
        242 => (12567955102985587136353369613287969585, -68),
        243 => (34163243977334849966907467619116852824, -68),
        244 => (92865325304802240908397570249090596499, -68),
        245 => (25243412626998187770632793234418799940, -69),
        246 => (68618709832262784296500189663439273040, -69),
        247 => (18652499202934394647893057141276968924, -70),
        248 => (50702749638683390134216749367456409844, -70),
        249 => (13782436299574148088857901819149382333, -71),
        250 => (37464546145026732603499548122029201501, -71),
        251 => (10183919499749154121311809801154593781, -72),
        252 => (27682763318657855929985771603963318292, -72),
        253 => (75249552490640263726958791405721841505, -72),
        254 => (20454949113498251750794190253329225813, -73),
        255 => (55602316477276754174041540473381702051, -73),
        256 => (15114276650041035425200896657072865078, -74),
        257 => (41084863568109398732746435014199662608, -74),
        258 => (11168023806191082975759894188368741636, -75),
        259 => (30357836172167242865270564060096681892, -75),
        260 => (82521154418138915708209187078469436590, -75),
        261 => (22431575451828987090132598854038981998, -76),
        262 => (60975343934414732803540925731945597709, -76),
        263 => (16574816940096003310288868055969816163, -77),
        264 => (45055023698298121117106125112845233389, -77),
        265 => (12247225219987543111692123050999620531, -78),
        266 => (33291409764537471210498902650647395181, -78),
        267 => (90495434206726229847410205869155592671, -78),
        268 => (24599209436265500385962442739613565585, -79),
        269 => (66867584005058783767836195501715462777, -79),
        270 => (18176493851390999782546650445313340672, -80),
        271 => (49408832941333720129685111047602318635, -80),
        272 => (13430713274979613085859250297613421779, -81),
        273 => (36508463838620754258131757683218532187, -81),
        274 => (99240293837476957258975386473680449662, -81),
        275 => (26976308738934978232765417912571366677, -82),
        276 => (73329209843947893397917976493127739665, -82),
        277 => (19932945861406369879404057817936726125, -83),
        278 => (54183364522718865591003756988762312406, -83),
        279 => (14728565518687920080874372478970627032, -84),
        280 => (40036392008717845384002607853055449617, -84),
        281 => (10883019687436065167926658665346876179, -85),
        282 => (29583114655119494191648535413124937628, -85),
        283 => (80415242996231796059259460914427322527, -85),
        284 => (21859129376777539785144693723458114365, -86),
        285 => (59419274170829680786039665041625326132, -86),
        286 => (16151833323879222366041833857187834774, -87),
        287 => (43905235020600150754042953190395882915, -87),
        288 => (11934680253072108439235558933754921818, -88),
        289 => (32441824460394911649740723321265334285, -88),
        290 => (88186021912749658986094822427733469383, -88),
        _ => (0, 0),
    };
    let r = Decimal::from_parts_unchecked(m, e, false);
    proof {
        Decimal::lemma_parts_determine(r, m as nat, e as int, false);
    }
    r
}

/// `e^-(291 + i)` for `0 <= i <= 8`, to 38 significant digits.
fn natural_exp_neg(i: usize) -> (r: Decimal)
    requires
        i < 9,
    ensures
        r.wf(),
        r == table_dec(natural_exp_neg_parts(i)),
{
    let (m, e): (u128, i16) = match i {
        0 => (41716298478166806118243377939293045745, 164),
        1 => (15346568571889094399003486191226211569, 164),
        2 => (56456870701257797059912015304055553681, 165),
        3 => (20769322043867093362333818538068856442, 165),
        4 => (76406065870075445735958388880036815267, 166),
        5 => (28108220814391766921916452972683068317, 166),
        6 => (10340436565521946602575863724595250916, 166),
        7 => (38040340251929620404917847776950070293, 167),
        8 => (13994259113851392172977837187029463838, 167),
        _ => (0, 0),
    };
    let r = Decimal::from_parts_unchecked(m, e, false);
    proof {
        Decimal::lemma_parts_determine(r, m as nat, e as int, false);
    }
    r
}

/// The decimal `m * 10^-e`, from constants of this module.
fn constant(m: u128, e: i16) -> (r: Decimal)
    requires
        m <= MAX_SIG,
        -126 <= e <= 167,
    ensures
        r.wf(),
        r.canonical(m as int, e as int, false),
{
    Decimal::from_parts_unchecked(m, e, false)
}

/// `d` is an integer: no non-zero digit stands after the point.
pub open spec fn is_integral(d: Decimal) -> bool {
    d.e() <= 0 || d.m() as int % pow(10, d.e() as nat) == 0
}

/// A normal form at a non-positive scale belongs to an integer.
proof fn lemma_normal_integral(n: Decimal, d: Decimal)
    requires
        crate::laws::rescaled(n, d),
        n.e() <= 0,
    ensures
        is_integral(d),
{
    if d.e() > 0 {
        let k = (d.e() - n.e()) as nat;
        lemma_pow_adds(10, (-n.e()) as nat, d.e() as nat);
        vstd::arithmetic::mul::lemma_mul_is_associative(n.m() as int, pow(10, (-n.e()) as nat), pow(10, d.e() as nat));
        lemma_pow_positive(10, d.e() as nat);
        vstd::arithmetic::div_mod::lemma_mod_multiples_basic(n.m() as int * pow(10, (-n.e()) as nat), pow(10, d.e() as nat));
    }
}

/// Against a non-zero value of the other sign, or zero against a non-zero value, the
/// comparison goes by sign.
proof fn lemma_sign_cmp(a: Decimal, b: Decimal)
    requires
        a.wf(),
        b.wf(),
        b.m() != 0,
        a.s() != b.s() || a.m() == 0,
    ensures
        a.cmp_spec(&b) == (if b.s() { 1int } else { -1int }) || (a.m() != 0 && a.s() != b.s()
            && a.cmp_spec(&b) == (if a.s() { -1int } else { 1int })),
        a.s() && a.m() != 0 ==> a.cmp_spec(&b) == -1,
        !a.s() && b.s() ==> a.cmp_spec(&b) == 1,
        a.m() == 0 && !b.s() ==> a.cmp_spec(&b) == -1,
{
    let t = if a.e() >= b.e() { a.e() } else { b.e() };
    lemma_pow_positive(10, (t - a.e()) as nat);
    lemma_pow_positive(10, (t - b.e()) as nat);
    crate::decimal::lemma_mag_sign(a.m() as int, pow(10, (t - a.e()) as nat));
    crate::decimal::lemma_mag_sign(b.m() as int, pow(10, (t - b.e()) as nat));
}

/// A negative value is not one.
proof fn lemma_negative_not_one(d: Decimal)
    requires
        d.wf(),
        d.s(),
    ensures
        d.cmp_spec(&Decimal::spec_from_parts(1, 0, false)) != 0,
{
    Decimal::lemma_spec_from_parts(1, 0, false);
    let t = if d.e() >= 0 { d.e() } else { 0 };
    lemma_pow_positive(10, (t - d.e()) as nat);
    lemma_pow_positive(10, t as nat);
    crate::decimal::lemma_mag_sign(d.m() as int, pow(10, (t - d.e()) as nat));
    crate::decimal::lemma_mag_sign(1, pow(10, t as nat));
}

/// The most reduction steps a representable value can need.
const MAX_STEPS: u32 = 1000;

/// The first reduction of `ln`; see `ln_down`.
fn ln_reduce_down(x0: Decimal) -> (r: Option<(Decimal, i32)>)
    requires
        x0.wf(),
    ensures
        match ln_down(x0, 0, 0) {
            None => r is None,
            Some((y, n)) => match r {
                Some((ry, rn)) => ry == y && rn == n && y.wf() && 0 <= n <= 1000,
                None => false,
            },
        },
{
    let zero_point_one = constant(1, 1);
    let one_point_one = constant(11, 1);
    proof {
        Decimal::lemma_parts_determine(zero_point_one, 1, 1, false);
        Decimal::lemma_parts_determine(one_point_one, 11, 1, false);
    }
    let mut x = x0;
    let mut n: i32 = 0;
    let mut steps: u32 = 0;
    while x.compare(&one_point_one) > 0 && steps < MAX_STEPS
        invariant
            x.wf(),
            zero_point_one.wf(),
            one_point_one.wf(),
            zero_point_one == cst(1, 1),
            one_point_one == cst(11, 1),
            n == steps,
            steps <= MAX_STEPS,
            ln_down(x, n as int, steps as nat) == ln_down(x0, 0, 0),
        decreases MAX_STEPS - steps,
    {
        let y = x.checked_mul(&zero_point_one);
        proof {
            lemma_gives_of(y, crate::decimal::mul_spec(x, zero_point_one));
        }
        x = y?;
        n = n + 1;
        steps = steps + 1;
    }
    Some((x, n))
}

/// The second reduction of `ln`; see `ln_up`.
fn ln_reduce_up(x0: Decimal, n0: i32) -> (r: Option<(Decimal, i32)>)
    requires
        x0.wf(),
        -1000 <= n0 <= 1000,
    ensures
        match ln_up(x0, n0 as int, 0) {
            None => r is None,
            Some((y, n)) => match r {
                Some((ry, rn)) => ry == y && rn == n && y.wf() && -2000 <= n <= 1000,
                None => false,
            },
        },
{
    let zero_point_one = constant(1, 1);
    let ten = constant(10, 0);
    proof {
        Decimal::lemma_parts_determine(zero_point_one, 1, 1, false);
        Decimal::lemma_parts_determine(ten, 10, 0, false);
    }
    let mut x = x0;
    let mut n: i32 = n0;
    let mut steps: u32 = 0;
    while x.compare(&zero_point_one) <= 0 && steps < MAX_STEPS
        invariant
            x.wf(),
            zero_point_one.wf(),
            ten.wf(),
            zero_point_one == cst(1, 1),
            ten == cst(10, 0),
            -1000 <= n0 <= 1000,
            n == n0 - steps,
            steps <= MAX_STEPS,
            ln_up(x, n as int, steps as nat) == ln_up(x0, n0 as int, 0),
        decreases MAX_STEPS - steps,
    {
        let y = x.checked_mul(&ten);
        proof {
            lemma_gives_of(y, crate::decimal::mul_spec(x, ten));
        }
        x = y?;
        n = n - 1;
        steps = steps + 1;
    }
    Some((x, n))
}

/// The third reduction of `ln`; see `ln_r`.
fn ln_reduce_r(x0: Decimal) -> (r: Option<(Decimal, i32)>)
    requires
        x0.wf(),
    ensures
        match ln_r(x0, 0, 0) {
            None => r is None,
            Some((y, n)) => match r {
                Some((ry, rn)) => ry == y && rn == n && y.wf() && -1000 <= n <= 0,
                None => false,
            },
        },
{
    let lower_bound = constant(9047, 4);
    let r_factor = constant(12217, 4);
    proof {
        Decimal::lemma_parts_determine(lower_bound, 9047, 4, false);
        Decimal::lemma_parts_determine(r_factor, 12217, 4, false);
    }
    let mut x = x0;
    let mut n: i32 = 0;
    let mut steps: u32 = 0;
    while x.compare(&lower_bound) < 0 && steps < MAX_STEPS
        invariant
            x.wf(),
            lower_bound.wf(),
            r_factor.wf(),
            lower_bound == cst(9047, 4),
            r_factor == cst(12217, 4),
            n == -(steps as int),
            steps <= MAX_STEPS,
            ln_r(x, n as int, steps as nat) == ln_r(x0, 0, 0),
        decreases MAX_STEPS - steps,
    {
        let y = x.checked_mul(&r_factor);
        proof {
            lemma_gives_of(y, crate::decimal::mul_spec(x, r_factor));
        }
        x = y?;
        n = n - 1;
        steps = steps + 1;
    }
    Some((x, n))
}

/// The series of `ln`; see `ln_series`.
fn ln_sum(y_square: Decimal, y: Decimal) -> (r: Option<Decimal>)
    requires
        y_square.wf(),
        y.wf(),
    ensures
        r == ln_series(y_square, y, y, 1),
        r is Some ==> r->0.wf(),
{
    let mut sum = y;
    let mut power_y = y;
    let mut iter: u32 = 1;
    while iter < 2 * MAX_STEPS
        invariant_except_break
            ln_series(y_square, power_y, sum, iter as nat) == ln_series(y_square, y, y, 1),
        invariant
            sum.wf(),
            power_y.wf(),
            y_square.wf(),
            1 <= iter <= 2 * MAX_STEPS + 1,
        ensures
            Some(sum) == ln_series(y_square, y, y, 1),
        decreases 2 * MAX_STEPS + 1 - iter,
    {
        iter = iter + 2;
        let p2 = power_y.checked_mul(&y_square);
        proof {
            lemma_gives_of(p2, crate::decimal::mul_spec(power_y, y_square));
        }
        power_y = p2?;
        let k = Decimal::from_unsigned(iter as u128);
        let term = power_y.checked_div(&k);
        proof {
            lemma_gives_of(term, crate::decimal::div_spec(power_y, k));
        }
        let term = term?;
        if term.is_zero() {
            break;
        }
        let last = sum;
        let s2 = sum.checked_add(&term);
        proof {
            lemma_gives_of(s2, crate::decimal::add_spec(sum, term));
        }
        sum = s2?;
        if last.same_value(&sum) {
            break;
        }
    }
    Some(sum)
}

/// `ln` from the reduced value and its counts; see `ln_rebuild`.
fn ln_from_reduced(z: Decimal, n1: i32, n2: i32) -> (r: Option<Decimal>)
    requires
        z.wf(),
        -2000 <= n1 <= 1000,
        -1000 <= n2 <= 0,
    ensures
        r == ln_rebuild(z, n1 as int, n2 as int),
        r is Some ==> r->0.wf(),
{
    let one = Decimal::one();
    let two = constant(2, 0);
    let ln_10 = constant(23025850929940456840179914546843642076, 37);
    let ln_r_const = constant(2002433314278771112016301166984297937, 37);
    proof {
        Decimal::lemma_parts_determine(one, 1, 0, false);
        Decimal::lemma_parts_determine(two, 2, 0, false);
        Decimal::lemma_parts_determine(ln_10, 23025850929940456840179914546843642076, 37, false);
        Decimal::lemma_parts_determine(ln_r_const, 2002433314278771112016301166984297937, 37, false);
    }
    let zm = z.checked_sub(&one);
    proof {
        lemma_gives_of(zm, crate::decimal::sub_spec(z, one));
    }
    let zp = z.checked_add(&one);
    proof {
        lemma_gives_of(zp, crate::decimal::add_spec(z, one));
    }
    let zm = zm?;
    let zp = zp?;
    let y = zm.checked_div(&zp);
    proof {
        lemma_gives_of(y, crate::decimal::div_spec(zm, zp));
    }
    let y = y?;
    let y_square = y.checked_mul(&y);
    proof {
        lemma_gives_of(y_square, crate::decimal::mul_spec(y, y));
    }
    let y_square = y_square?;
    let sum = ln_sum(y_square, y)?;
    let ln_z = sum.checked_mul(&two);
    proof {
        lemma_gives_of(ln_z, crate::decimal::mul_spec(sum, two));
    }
    let ln_z = ln_z?;
    let k1 = Decimal::from_signed(n1 as i128);
    let t1 = ln_10.checked_mul(&k1);
    proof {
        lemma_gives_of(t1, crate::decimal::mul_spec(ln_10, k1));
    }
    let t1 = t1?;
    let r1 = ln_z.checked_add(&t1);
    proof {
        lemma_gives_of(r1, crate::decimal::add_spec(ln_z, t1));
    }
    let r1 = r1?;
    let k2 = Decimal::from_signed(n2 as i128);
    let t2 = ln_r_const.checked_mul(&k2);
    proof {
        lemma_gives_of(t2, crate::decimal::mul_spec(ln_r_const, k2));
    }
    let t2 = t2?;
    let r = r1.checked_add(&t2);
    proof {
        lemma_gives_of(r, crate::decimal::add_spec(r1, t2));
    }
    r
}

impl Decimal {
    /// `self == other` by value.
    fn same_value(&self, other: &Decimal) -> (r: bool)
        requires
            self.wf(),
            other.wf(),
        ensures
            r == (self.cmp_spec(other) == 0),
    {
        self.compare(other) == 0
    }

    /// The natural logarithm; `None` for a value that is zero or negative, or where an
    /// intermediate overflows.
    pub fn ln(&self) -> (r: Option<Decimal>)
        requires
            self.wf(),
        ensures
            r == ln_spec(*self),
            self.s() || self.m() == 0 ==> r is None,
            self.cmp_spec(&Decimal::spec_from_parts(1, 0, false)) == 0 ==> r is Some && r->0.has_parts(0, 0, false),
            r is Some ==> r->0.wf(),
    {
        if self.is_sign_negative() || self.is_zero() {
            proof {
                Decimal::lemma_spec_from_parts(1, 0, false);
                lemma_sign_cmp(*self, Decimal::spec_from_parts(1, 0, false));
            }
            return None;
        }
        let one = Decimal::one();
        let zero = Decimal::zero();
        proof {
            Decimal::lemma_parts_determine(one, 1, 0, false);
            Decimal::lemma_parts_determine(zero, 0, 0, false);
        }
        if self.same_value(&one) {
            return Some(zero);
        }
        // Bring x into (0.1, 1.1], then into [0.9047, 1.10526).
        let (x1, n1) = ln_reduce_down(*self)?;
        let (x2, n1) = ln_reduce_up(x1, n1)?;
        let (z, n2) = ln_reduce_r(x2)?;
        ln_from_reduced(z, n1, n2)
    }

    /// `e^x` by its Taylor series, for a small `x`.
    pub fn exp_decimal(&self) -> (r: Option<Decimal>)
        requires
            self.wf(),
        ensures
            r == crate::iterate::exp_taylor(*self),
            r is Some ==> r->0.wf(),
    {
        let x = *self;
        let mut term = x;
        let one = Decimal::one();
        proof {
            Decimal::lemma_parts_determine(one, 1, 0, false);
        }
        let s0 = one.checked_add(&x);
        proof {
            lemma_gives_of(s0, crate::decimal::add_spec(one, x));
        }
        let mut sum = s0?;
        let mut iter: u32 = 1;
        let ghost target = crate::iterate::exp_taylor(*self);
        while iter < MAX_STEPS
            invariant_except_break
                crate::iterate::exp_loop(x, term, sum, iter as nat) == target,
            invariant
                sum.wf(),
                term.wf(),
                x.wf(),
                x == *self,
                1 <= iter <= MAX_STEPS,
                target == crate::iterate::exp_taylor(*self),
            ensures
                Some(sum) == target,
            decreases MAX_STEPS - iter,
        {
            let ghost i0 = iter;
            iter = iter + 1;
            // Divide first, then multiply, to keep the intermediate in range.
            let k = Decimal::from_unsigned(iter as u128);
            let t1 = term.checked_div(&k);
            proof {
                lemma_gives_of(t1, crate::decimal::div_spec(term, k));
            }
            let t1 = t1?;
            let t2 = t1.checked_mul(&x);
            proof {
                lemma_gives_of(t2, crate::decimal::mul_spec(t1, x));
            }
            term = t2?;
            if term.is_zero() {
                break;
            }
            let last = sum;
            let s2 = sum.checked_add(&term);
            proof {
                lemma_gives_of(s2, crate::decimal::add_spec(sum, term));
            }
            sum = s2?;
            if last.same_value(&sum) {
                break;
            }
        }
        Some(sum)
    }

    /// The natural exponential; `None` where it overflows (from `e^291` up), zero from
    /// `e^-300` down.
    pub fn exp(&self) -> (r: Option<Decimal>)
        requires
            self.wf(),
        ensures
            r == exp_spec(*self),
            self.m() == 0 ==> r is Some && r->0.has_parts(1, 0, false),
            self.cmp_spec(&Decimal::spec_from_parts(291, 0, false)) >= 0 ==> r is None,
            self.m() != 0 && self.cmp_spec(&Decimal::spec_from_parts(300, 0, true)) <= 0 ==> r is Some
                && r->0.has_parts(0, 0, false),
            r is Some ==> r->0.wf(),
    {
        let zero = Decimal::zero();
        let one = Decimal::one();
        proof {
            Decimal::lemma_parts_determine(zero, 0, 0, false);
            Decimal::lemma_parts_determine(one, 1, 0, false);
        }
        if self.is_zero() {
            proof {
                Decimal::lemma_spec_from_parts(291, 0, false);
                lemma_sign_cmp(*self, Decimal::spec_from_parts(291, 0, false));
            }
            return Some(one);
        }
        let upper_bound = constant(291, 0);
        let lower_bound = Decimal::from_parts_unchecked(300, 0, true);
        proof {
            Decimal::lemma_parts_determine(upper_bound, 291, 0, false);
            Decimal::lemma_parts_determine(lower_bound, 300, 0, true);
        }
        if self.compare(&upper_bound) >= 0 {
            proof {
                if self.s() {
                    lemma_sign_cmp(*self, upper_bound);
                } else {
                    lemma_sign_cmp(*self, lower_bound);
                }
            }
            return None;
        }
        if self.compare(&lower_bound) <= 0 {
            return Some(zero);
        }
        let a = self.trunc(0);
        proof {
            let c = cut_spec(*self, 0, false);
            Decimal::lemma_parts_determine(a, c.0 as nat, c.1, c.2);
        }
        let b = self.checked_sub(&a);
        proof {
            lemma_gives_of(b, sub_spec(*self, a));
        }
        let b = b?;
        let (a_int, _, a_negative) = a.into_parts();
        let exp_a = if !a_negative {
            if a_int >= 291 {
                return None;
            }
            natural_exp(a_int as usize)
        } else if a_int < 291 {
            let t = natural_exp(a_int as usize);
            let q = one.checked_div(&t);
            proof {
                lemma_gives_of(q, crate::decimal::div_spec(one, t));
            }
            q?
        } else if a_int < 300 {
            natural_exp_neg((a_int - 291) as usize)
        } else {
            return Some(zero);
        };
        if b.is_zero() {
            return Some(exp_a);
        }
        let exp_b = b.exp_decimal()?;
        let r = exp_a.checked_mul(&exp_b);
        proof {
            lemma_gives_of(r, crate::decimal::mul_spec(exp_a, exp_b));
        }
        r
    }

    /// `self^exponent` for an integer exponent, by squaring.
    pub fn pow_u64(&self, exponent: u64) -> (r: Option<Decimal>)
        requires
            self.wf(),
        ensures
            r == pow_spec(*self, exponent as nat),
            exponent == 0 ==> r is Some && r->0.has_parts(1, 0, false),
            exponent == 1 ==> r == Some(*self),
            r is Some ==> r->0.wf(),
    {
        let one = Decimal::one();
        proof {
            Decimal::lemma_parts_determine(one, 1, 0, false);
        }
        if exponent == 0 {
            return Some(one);
        }
        if exponent == 1 {
            return Some(*self);
        }
        if exponent == 2 {
            let r = self.checked_mul(self);
            proof {
                lemma_gives_of(r, crate::decimal::mul_spec(*self, *self));
            }
            return r;
        }
        let mut n = exponent;
        let mut sum = one;
        let mut power_x = *self;
        if n % 2 == 1 {
            let s1 = sum.checked_mul(&power_x);
            proof {
                lemma_gives_of(s1, crate::decimal::mul_spec(sum, power_x));
            }
            sum = s1?;
        }
        n = n / 2;
        let ghost target = pow_spec(*self, exponent as nat);
        while n != 0
            invariant
                sum.wf(),
                power_x.wf(),
                exponent >= 3,
                pow_steps(sum, power_x, n as nat) == target,
                target == pow_spec(*self, exponent as nat),
            decreases n,
        {
            let p2 = power_x.checked_mul(&power_x);
            proof {
                lemma_gives_of(p2, crate::decimal::mul_spec(power_x, power_x));
                assert(n as nat != 0);
                if p2 is None {
                    assert(pow_steps(sum, power_x, n as nat) is None);
                }
            }
            let ghost old_px = power_x;
            power_x = p2?;
            if n % 2 == 1 {
                let s2 = sum.checked_mul(&power_x);
                proof {
                    lemma_gives_of(s2, crate::decimal::mul_spec(sum, power_x));
                    if s2 is None {
                        assert(pow_steps(sum, old_px, n as nat) is None);
                    }
                }
                sum = s2?;
            }
            n = n / 2;
        }
        Some(sum)
    }

    /// Whether `self^exponent` surely stays within 38 digits, so that `self^-exponent` can
    /// take the direct path.
    fn pow_quick_range(&self, exponent: u64) -> (r: bool)
        requires
            self.wf(),
        ensures
            r == quick_range(*self, exponent as nat),
    {
        let b1 = constant(1163, 0);
        let b2 = constant(125, 0);
        let b3 = Decimal::from_parts_unchecked(1, -1, false);
        proof {
            Decimal::lemma_parts_determine(b1, 1163, 0, false);
            Decimal::lemma_parts_determine(b2, 125, 0, false);
            Decimal::lemma_parts_determine(b3, 1, -1, false);
        }
        (exponent < 42 && self.compare(&b1) < 0) || (exponent < 61 && self.compare(&b2) < 0) || (
        exponent < 126 && self.compare(&b3) < 0)
    }

    /// `self^exponent` for an integer exponent; `None` for zero to a negative power or where
    /// the result overflows.
    pub fn pow_i64(&self, exponent: i64) -> (r: Option<Decimal>)
        requires
            self.wf(),
        ensures
            r == pow_int_spec(*self, exponent as int),
            exponent < 0 && self.m() == 0 ==> r is None,
            exponent == 0 ==> r is Some && r->0.has_parts(1, 0, false),
            r is Some ==> r->0.wf(),
    {
        if exponent >= 0 {
            return self.pow_u64(exponent as u64);
        }
        if self.is_zero() {
            return None;
        }
        let y: u64 = if exponent == i64::MIN {
            9_223_372_036_854_775_808
        } else {
            (-exponent) as u64
        };
        let one = Decimal::one();
        proof {
            Decimal::lemma_parts_determine(one, 1, 0, false);
        }
        if self.pow_quick_range(y) {
            let p = self.pow_u64(y)?;
            let q = one.checked_div(&p);
            proof {
                lemma_gives_of(q, crate::decimal::div_spec(one, p));
            }
            return q;
        }
        match self.pow_u64(y / 2) {
            Some(p) => {
                let q1 = one.checked_div(&p);
                proof {
                    lemma_gives_of(q1, crate::decimal::div_spec(one, p));
                }
                let q1 = q1?;
                let q2 = q1.checked_div(&p);
                proof {
                    lemma_gives_of(q2, crate::decimal::div_spec(q1, p));
                }
                let power = q2?;
                if y % 2 == 1 {
                    let q3 = power.checked_div(self);
                    proof {
                        lemma_gives_of(q3, crate::decimal::div_spec(power, *self));
                    }
                    q3
                } else {
                    Some(power)
                }
            },
            None => {
                let z = Decimal::zero();
                proof {
                    Decimal::lemma_parts_determine(z, 0, 0, false);
                }
                Some(z)
            },
        }
    }

    /// `self^exponent` for an integral exponent.
    fn pow_decimal_integral(&self, exponent: &Decimal) -> (r: Option<Decimal>)
        requires
            self.wf(),
            exponent.wf(),
        ensures
            r == pow_integral_spec(*self, *exponent),
            r is Some ==> r->0.wf(),
    {
        let (m, _, negative) = exponent.into_parts();
        if negative {
            if exponent.compare(&Decimal::from_signed(i16::MIN as i128)) < 0 {
                return self.pow_decimal(exponent);
            }
            let v: i64 = if m <= 32768 { m as i64 } else { 32768 };
            self.pow_i64(-v)
        } else {
            if exponent.compare(&Decimal::from_unsigned(u16::MAX as u128)) > 0 {
                return self.pow_decimal(exponent);
            }
            let v: u64 = if m <= 65535 { m as u64 } else { 65535 };
            self.pow_u64(v)
        }
    }

    /// `|self|^exponent` as `e^(exponent * ln|self|)`, negated for a negative base and an
    /// odd exponent.
    fn pow_decimal(&self, exponent: &Decimal) -> (r: Option<Decimal>)
        requires
            self.wf(),
            exponent.wf(),
        ensures
            r == pow_exp_ln_spec(*self, *exponent),
            r is Some ==> r->0.wf(),
    {
        let x = self.abs();
        proof {
            Decimal::lemma_parts_determine(x, self.m(), self.e(), false);
        }
        let ln = x.ln()?;
        let e = ln.checked_mul(exponent);
        proof {
            lemma_gives_of(e, crate::decimal::mul_spec(ln, *exponent));
        }
        let e = e?;
        let result = e.exp()?;
        let two = constant(2, 0);
        let one = Decimal::one();
        proof {
            Decimal::lemma_parts_determine(two, 2, 0, false);
            Decimal::lemma_parts_determine(one, 1, 0, false);
        }
        let rem = exponent.checked_rem(&two);
        proof {
            lemma_gives_of(rem, crate::decimal::rem_spec(*exponent, two));
        }
        let rem = rem?;
        let rem_abs = rem.abs();
        proof {
            Decimal::lemma_parts_determine(rem_abs, rem.m(), rem.e(), false);
        }
        if self.is_sign_negative() && rem_abs.same_value(&one) {
            let n = result.neg();
            proof {
                if result.m() == 0 {
                    Decimal::lemma_parts_determine(n, 0, 0, false);
                } else {
                    Decimal::lemma_parts_determine(n, result.m(), result.e(), !result.s());
                }
            }
            Some(n)
        } else {
            Some(result)
        }
    }

    /// `self^exponent`; `None` for zero to a negative power, a negative base to a fractional
    /// power, or where the result overflows.
    pub fn checked_pow(&self, exponent: &Decimal) -> (r: Option<Decimal>)
        requires
            self.wf(),
            exponent.wf(),
        ensures
            exponent.m() == 0 ==> r is Some && r->0.has_parts(1, 0, false),
            exponent.m() != 0 && self.m() == 0 ==> (r is None <==> exponent.s()),
            exponent.m() != 0 && self.m() == 0 && !exponent.s() ==> r is Some && r->0.has_parts(0, 0, false),
            exponent.m() != 0 && self.m() != 0 && self.cmp_spec(&Decimal::spec_from_parts(1, 0, false)) == 0
                ==> r is Some && r->0.has_parts(1, 0, false),
            exponent.m() != 0 && self.m() != 0 && self.cmp_spec(&Decimal::spec_from_parts(1, 0, false)) != 0
                && exponent.cmp_spec(&Decimal::spec_from_parts(1, 0, false)) == 0 ==> r == Some(*self),
            exponent.m() != 0 && self.s() && !is_integral(*exponent) && exponent.cmp_spec(
                &Decimal::spec_from_parts(1, 0, false),
            ) != 0 ==> r is None,
            r == checked_pow_spec(*self, *exponent),
            r is Some ==> r->0.wf(),
    {
        let one0 = Decimal::one();
        let zero0 = Decimal::zero();
        proof {
            Decimal::lemma_parts_determine(one0, 1, 0, false);
            Decimal::lemma_parts_determine(zero0, 0, 0, false);
        }
        if exponent.is_zero() {
            return Some(one0);
        }
        if self.is_zero() {
            if exponent.is_sign_negative() {
                return None;
            }
            return Some(zero0);
        }
        let one = Decimal::one();
        proof {
            Decimal::lemma_parts_determine(one, 1, 0, false);
            if self.s() {
                lemma_negative_not_one(*self);
            }
        }
        if self.same_value(&one) {
            return Some(one);
        }
        if exponent.same_value(&one) {
            return Some(*self);
        }
        let ghost original = *exponent;
        let exponent = exponent.normalize();
        proof {
            crate::iterate::lemma_norm(exponent, original);
        }
        if exponent.scale() <= 0 {
            proof {
                lemma_normal_integral(exponent, original);
            }
            return self.pow_decimal_integral(&exponent);
        }
        if self.is_sign_negative() {
            return None;
        }
        // x^n = x^a * x^b with a the integral and b the fractional part of n.
        let a = exponent.trunc(0);
        proof {
            let c = cut_spec(exponent, 0, false);
            Decimal::lemma_parts_determine(a, c.0 as nat, c.1, c.2);
        }
        let b = exponent.checked_sub(&a);
        proof {
            lemma_gives_of(b, sub_spec(exponent, a));
        }
        let b = b?;
        let power_a = self.pow_decimal_integral(&a)?;
        let power_b = self.pow_decimal(&b)?;
        let r = power_a.checked_mul(&power_b);
        proof {
            lemma_gives_of(r, crate::decimal::mul_spec(power_a, power_b));
        }
        r
    }
}

} // verus!
