//! Facts about the field's modulus that rest on concrete arithmetic: the
//! power of two dividing `modulus() - 1`, and 5 to the power
//! `(modulus() - 1) / 2` being -1, so that 5 generates roots of unity of
//! every order up to 2^28.

use crate::gf::modulus;
use vstd::arithmetic::div_mod::*;
use vstd::arithmetic::power::*;
use vstd::arithmetic::power2::*;
use vstd::prelude::*;

verus! {

/// `x` to the sixteenth power, as a product.
spec fn pow16(x: int) -> int {
    x * x * x * x * x * x * x * x * x * x * x * x * x * x * x * x
}

/// The odd part of `modulus() - 1`.
pub open spec fn odd_part() -> nat {
    81540058820840996586704275553141814055101440848469862132140264610111nat
}

proof fn lemma_small_powers_of_five()
    ensures
        pow(5, 0) == 1,
        pow(5, 1) == 5,
        pow(5, 2) == 25,
        pow(5, 3) == 125,
        pow(5, 4) == 625,
        pow(5, 5) == 3125,
        pow(5, 6) == 15625,
        pow(5, 7) == 78125,
        pow(5, 8) == 390625,
        pow(5, 9) == 1953125,
        pow(5, 10) == 9765625,
        pow(5, 11) == 48828125,
        pow(5, 12) == 244140625,
        pow(5, 13) == 1220703125,
        pow(5, 14) == 6103515625,
        pow(5, 15) == 30517578125,
{
    reveal_with_fuel(pow, 16);
}

/// One step of a base-16 exponentiation: from 5^e to 5^(16 e + d).
proof fn lemma_pow_window(e: nat, x: int, d: nat, pd: int)
    requires
        pow(5, e) % (modulus() as int) == x,
        pow(5, d) == pd,
    ensures
        pow(5, 16 * e + d) % (modulus() as int) == (pow16(x) * pd) % (modulus() as int),
{
    let m = modulus() as int;
    let y = pow(5, e);
    lemma_pow_adds(5, 16 * e, d);
    lemma_pow_multiplies(5, e, 16);
    assert(e * 16 == 16 * e) by (nonlinear_arith);
    reveal_with_fuel(pow, 17);
    lemma_mul_mod_noop_left(pow(y, 16), pd, m);
    lemma_pow_mod_noop(y, 16, m);
    assert(pow(x, 16) == pow16(x)) by (nonlinear_arith)
        requires pow(x, 16) == x * (x * (x * (x * (x * (x * (x * (x * (x * (x * (x * (x * (x * (x * (x * (x * 1)))))))))))))));
    lemma_mul_mod_noop_left(pow(x, 16), pd, m);
}

/// 5 to the power `(modulus() - 1) / 2` is -1 modulo the field's modulus.
pub proof fn lemma_five_half_order()
    ensures
        modulus() - 1 == pow2(28) * odd_part(),
        odd_part() % 2 == 1,
        pow(5, ((modulus() - 1) / 2) as nat) % (modulus() as int) == modulus() - 1,
{
    let m = modulus() as int;
    lemma2_to64();
    lemma_small_powers_of_five();
    assert(pow(5, 1nat) % m == 5int);
    lemma_pow_window(1nat, 5int, 8nat, 390625int);
    assert(pow(5, 24nat) % m == 59604644775390625int);
    lemma_pow_window(24nat, 59604644775390625int, 3nat, 125int);
    assert(pow(5, 387nat) % m == 9086614246629678409901891358980307970763007317620017294639366207294686486377int);
    lemma_pow_window(387nat, 9086614246629678409901891358980307970763007317620017294639366207294686486377int, 2nat, 25int);
    assert(pow(5, 6194nat) % m == 7122149797049657406560069179679128750064069009214282033263205883947167685589int);
    lemma_pow_window(6194nat, 7122149797049657406560069179679128750064069009214282033263205883947167685589int, 2nat, 25int);
    assert(pow(5, 99106nat) % m == 3116273844467330801829001622792568843079926253117073339408483697909462424626int);
    lemma_pow_window(99106nat, 3116273844467330801829001622792568843079926253117073339408483697909462424626int, 7nat, 78125int);
    assert(pow(5, 1585703nat) % m == 9584622151981067344174680760542456094210385546162912082661108929439870980748int);
    lemma_pow_window(1585703nat, 9584622151981067344174680760542456094210385546162912082661108929439870980748int, 3nat, 125int);
    assert(pow(5, 25371251nat) % m == 517373029847386283780060741626053464129344970908342161092808690292186612163int);
    lemma_pow_window(25371251nat, 517373029847386283780060741626053464129344970908342161092808690292186612163int, 9nat, 1953125int);
    assert(pow(5, 405940025nat) % m == 14569735884458382856254784209912830376236225605784403836765118408925324734017int);
    lemma_pow_window(405940025nat, 14569735884458382856254784209912830376236225605784403836765118408925324734017int, 7nat, 78125int);
    assert(pow(5, 6495040407nat) % m == 10515933692801596054137274619403467303992730962120133861438972633219469456172int);
    lemma_pow_window(6495040407nat, 10515933692801596054137274619403467303992730962120133861438972633219469456172int, 0nat, 1int);
    assert(pow(5, 103920646512nat) % m == 15364255734425713002718835933644000406291089247791499507392333308306132147049int);
    lemma_pow_window(103920646512nat, 15364255734425713002718835933644000406291089247791499507392333308306132147049int, 9nat, 1953125int);
    assert(pow(5, 1662730344201nat) % m == 9915302353866463282044221001597139702102547599566625451143944039358989129856int);
    lemma_pow_window(1662730344201nat, 9915302353866463282044221001597139702102547599566625451143944039358989129856int, 8nat, 390625int);
    assert(pow(5, 26603685507224nat) % m == 10013671365415589539201407492754203210643547010114855874351378195379236706658int);
    lemma_pow_window(26603685507224nat, 10013671365415589539201407492754203210643547010114855874351378195379236706658int, 13nat, 1220703125int);
    assert(pow(5, 425658968115597nat) % m == 10783696055532049719109712848731009853889929231726391350409941317125095091687int);
    lemma_pow_window(425658968115597nat, 10783696055532049719109712848731009853889929231726391350409941317125095091687int, 0nat, 1int);
    assert(pow(5, 6810543489849552nat) % m == 2402354128223672328358869780121422578622443142442801963686561454147809696357int);
    lemma_pow_window(6810543489849552nat, 2402354128223672328358869780121422578622443142442801963686561454147809696357int, 1nat, 5int);
    assert(pow(5, 108968695837592833nat) % m == 3886134410982702694554336166722418704666193174880187586743526178045498209802int);
    lemma_pow_window(108968695837592833nat, 3886134410982702694554336166722418704666193174880187586743526178045498209802int, 4nat, 625int);
    assert(pow(5, 1743499133401485332nat) % m == 11272276662310496532619612006108119513586372798821762845622598892375354286427int);
    lemma_pow_window(1743499133401485332nat, 11272276662310496532619612006108119513586372798821762845622598892375354286427int, 13nat, 1220703125int);
    assert(pow(5, 27895986134423765325nat) % m == 2603510155155449425351324680136310789914599518979895666700542175361390231641int);
    lemma_pow_window(27895986134423765325nat, 2603510155155449425351324680136310789914599518979895666700542175361390231641int, 12nat, 244140625int);
    assert(pow(5, 446335778150780245212nat) % m == 21874273728822463733401318157604561819725490105559641109087200596869146930838int);
    lemma_pow_window(446335778150780245212nat, 21874273728822463733401318157604561819725490105559641109087200596869146930838int, 2nat, 25int);
    assert(pow(5, 7141372450412483923394nat) % m == 16502609259198323201554641579931238458835997809478122212338335242405916677844int);
    lemma_pow_window(7141372450412483923394nat, 16502609259198323201554641579931238458835997809478122212338335242405916677844int, 8nat, 390625int);
    assert(pow(5, 114261959206599742774312nat) % m == 8343872891997277668601868321862574652818926223018918269209044664331295966149int);
    lemma_pow_window(114261959206599742774312nat, 8343872891997277668601868321862574652818926223018918269209044664331295966149int, 2nat, 25int);
    assert(pow(5, 1828191347305595884388994nat) % m == 4134476305357831057785045960074432485207368274479980272884084381762189469934int);
    lemma_pow_window(1828191347305595884388994nat, 4134476305357831057785045960074432485207368274479980272884084381762189469934int, 2nat, 25int);
    assert(pow(5, 29251061556889534150223906nat) % m == 18902839417881785115916266533065687752930047717524368274171973011827260007115int);
    lemma_pow_window(29251061556889534150223906nat, 18902839417881785115916266533065687752930047717524368274171973011827260007115int, 13nat, 1220703125int);
    assert(pow(5, 468016984910232546403582509nat) % m == 2084194416648000928528537406468776091667240941797815725032282949259973261067int);
    lemma_pow_window(468016984910232546403582509nat, 2084194416648000928528537406468776091667240941797815725032282949259973261067int, 11nat, 48828125int);
    assert(pow(5, 7488271758563720742457320155nat) % m == 14813525971648781834912506123465838311053330219062308586587401120808795393795int);
    lemma_pow_window(7488271758563720742457320155nat, 14813525971648781834912506123465838311053330219062308586587401120808795393795int, 4nat, 625int);
    assert(pow(5, 119812348137019531879317122484nat) % m == 9376517347857831937009618928236940371959486735826044671830336997827458174850int);
    lemma_pow_window(119812348137019531879317122484nat, 9376517347857831937009618928236940371959486735826044671830336997827458174850int, 0nat, 1int);
    assert(pow(5, 1916997570192312510069073959744nat) % m == 1294007377075685471616421760603917760062792716786573274240018593023678294688int);
    lemma_pow_window(1916997570192312510069073959744nat, 1294007377075685471616421760603917760062792716786573274240018593023678294688int, 12nat, 244140625int);
    assert(pow(5, 30671961123077000161105183355916nat) % m == 14366811465435179739912877045164387184657053008517704811432583758608568101504int);
    lemma_pow_window(30671961123077000161105183355916nat, 14366811465435179739912877045164387184657053008517704811432583758608568101504int, 0nat, 1int);
    assert(pow(5, 490751377969232002577682933694656nat) % m == 754566290014599858376334434046059585607389134598520802583940160157671647970int);
    lemma_pow_window(490751377969232002577682933694656nat, 754566290014599858376334434046059585607389134598520802583940160157671647970int, 10nat, 9765625int);
    assert(pow(5, 7852022047507712041242926939114506nat) % m == 6425611171681505176001267956657120053224756614331989312868608837284957809021int);
    lemma_pow_window(7852022047507712041242926939114506nat, 6425611171681505176001267956657120053224756614331989312868608837284957809021int, 12nat, 244140625int);
    assert(pow(5, 125632352760123392659886831025832108nat) % m == 17772940573227735660822313500887420407164849853616000784655108386543888319091int);
    lemma_pow_window(125632352760123392659886831025832108nat, 17772940573227735660822313500887420407164849853616000784655108386543888319091int, 2nat, 25int);
    assert(pow(5, 2010117644161974282558189296413313730nat) % m == 18768133358106523373411654634717646896106986213984818118701124029201321608197int);
    lemma_pow_window(2010117644161974282558189296413313730nat, 18768133358106523373411654634717646896106986213984818118701124029201321608197int, 14nat, 6103515625int);
    assert(pow(5, 32161882306591588520931028742613019694nat) % m == 19129979934757928616124920877211488417292764770213222532297807244005181690048int);
    lemma_pow_window(32161882306591588520931028742613019694nat, 19129979934757928616124920877211488417292764770213222532297807244005181690048int, 9nat, 1953125int);
    assert(pow(5, 514590116905465416334896459881808315113nat) % m == 12494802654227597455145297345515982409439655412167168111096214354004181857020int);
    lemma_pow_window(514590116905465416334896459881808315113nat, 12494802654227597455145297345515982409439655412167168111096214354004181857020int, 4nat, 625int);
    assert(pow(5, 8233441870487446661358343358108933041812nat) % m == 16747659364652639747531990691648657637388461381937856284151428599921887086782int);
    lemma_pow_window(8233441870487446661358343358108933041812nat, 16747659364652639747531990691648657637388461381937856284151428599921887086782int, 1nat, 5int);
    assert(pow(5, 131735069927799146581733493729742928668993nat) % m == 10722679947205603560644882634460531018055450310674846622429009641286694866438int);
    lemma_pow_window(131735069927799146581733493729742928668993nat, 10722679947205603560644882634460531018055450310674846622429009641286694866438int, 9nat, 1953125int);
    assert(pow(5, 2107761118844786345307735899675886858703897nat) % m == 751405754761996497287697911178205239224845749818669177867786597867590859340int);
    lemma_pow_window(2107761118844786345307735899675886858703897nat, 751405754761996497287697911178205239224845749818669177867786597867590859340int, 15nat, 30517578125int);
    assert(pow(5, 33724177901516581524923774394814189739262367nat) % m == 8720381750765444020246716808803326384476524582097196911534699655030093900312int);
    lemma_pow_window(33724177901516581524923774394814189739262367nat, 8720381750765444020246716808803326384476524582097196911534699655030093900312int, 4nat, 625int);
    assert(pow(5, 539586846424265304398780390317027035828197876nat) % m == 20710938132140626513949373190327770326956328697392362811499687227769032515796int);
    lemma_pow_window(539586846424265304398780390317027035828197876nat, 20710938132140626513949373190327770326956328697392362811499687227769032515796int, 2nat, 25int);
    assert(pow(5, 8633389542788244870380486245072432573251166018nat) % m == 8688527548647302701724961424360795545182064770166054250650577990793349036634int);
    lemma_pow_window(8633389542788244870380486245072432573251166018nat, 8688527548647302701724961424360795545182064770166054250650577990793349036634int, 4nat, 625int);
    assert(pow(5, 138134232684611917926087779921158921172018656292nat) % m == 13163660610909834569616811784312169321574940972830683575230863032866261626959int);
    lemma_pow_window(138134232684611917926087779921158921172018656292nat, 13163660610909834569616811784312169321574940972830683575230863032866261626959int, 3nat, 125int);
    assert(pow(5, 2210147722953790686817404478738542738752298500675nat) % m == 4240087459284698771200184234856471714831664842049934765271594327660777472651int);
    lemma_pow_window(2210147722953790686817404478738542738752298500675nat, 4240087459284698771200184234856471714831664842049934765271594327660777472651int, 12nat, 244140625int);
    assert(pow(5, 35362363567260650989078471659816683820036776010812nat) % m == 11307908243200590983912226516199098538677525625234053459875352388865085208733int);
    lemma_pow_window(35362363567260650989078471659816683820036776010812nat, 11307908243200590983912226516199098538677525625234053459875352388865085208733int, 13nat, 1220703125int);
    assert(pow(5, 565797817076170415825255546557066941120588416173005nat) % m == 13305767183019947994369697708435408097155047623286467549698266195193572556896int);
    lemma_pow_window(565797817076170415825255546557066941120588416173005nat, 13305767183019947994369697708435408097155047623286467549698266195193572556896int, 12nat, 244140625int);
    assert(pow(5, 9052765073218726653204088744913071057929414658768092nat) % m == 4031598524059352681220240458485118380885926112118639552555483931584623568936int);
    lemma_pow_window(9052765073218726653204088744913071057929414658768092nat, 4031598524059352681220240458485118380885926112118639552555483931584623568936int, 11nat, 48828125int);
    assert(pow(5, 144844241171499626451265419918609136926870634540289483nat) % m == 5193161134101987841005332192047631706719996804743058780668119996728484547841int);
    lemma_pow_window(144844241171499626451265419918609136926870634540289483nat, 5193161134101987841005332192047631706719996804743058780668119996728484547841int, 8nat, 390625int);
    assert(pow(5, 2317507858743994023220246718697746190829930152644631736nat) % m == 12884993852127825220611561092387825975427124727324898546348906356907352426900int);
    lemma_pow_window(2317507858743994023220246718697746190829930152644631736nat, 12884993852127825220611561092387825975427124727324898546348906356907352426900int, 4nat, 625int);
    assert(pow(5, 37080125739903904371523947499163939053278882442314107780nat) % m == 16278962444712543222161982882950573234696921839554216072953517402982671314135int);
    lemma_pow_window(37080125739903904371523947499163939053278882442314107780nat, 16278962444712543222161982882950573234696921839554216072953517402982671314135int, 8nat, 390625int);
    assert(pow(5, 593282011838462469944383159986623024852462119077025724488nat) % m == 17898123499280837878048763555213381316685887531033950867536307914915923762881int);
    lemma_pow_window(593282011838462469944383159986623024852462119077025724488nat, 17898123499280837878048763555213381316685887531033950867536307914915923762881int, 10nat, 9765625int);
    assert(pow(5, 9492512189415399519110130559785968397639393905232411591818nat) % m == 4593135266042967422011463256484233142601212075001244522796606496438689911128int);
    lemma_pow_window(9492512189415399519110130559785968397639393905232411591818nat, 4593135266042967422011463256484233142601212075001244522796606496438689911128int, 1nat, 5int);
    assert(pow(5, 151880195030646392305762088956575494362230302483718585469089nat) % m == 2369857495604672075885586745501376665292538597775222601363517338362885229667int);
    lemma_pow_window(151880195030646392305762088956575494362230302483718585469089nat, 2369857495604672075885586745501376665292538597775222601363517338362885229667int, 15nat, 30517578125int);
    assert(pow(5, 2430083120490342276892193423305207909795684839739497367505439nat) % m == 12055348549749370040492776391518332730517270762405466490330518457489883398286int);
    lemma_pow_window(2430083120490342276892193423305207909795684839739497367505439nat, 12055348549749370040492776391518332730517270762405466490330518457489883398286int, 0nat, 1int);
    assert(pow(5, 38881329927845476430275094772883326556730957435831957880087024nat) % m == 12118804860518670145098489159991402417888461380160045337181206144932510518417int);
    lemma_pow_window(38881329927845476430275094772883326556730957435831957880087024nat, 12118804860518670145098489159991402417888461380160045337181206144932510518417int, 15nat, 30517578125int);
    assert(pow(5, 622101278845527622884401516366133224907695318973311326081392399nat) % m == 3018937801257910216515047324755150230061739800647458677846584795504153630758int);
    lemma_pow_window(622101278845527622884401516366133224907695318973311326081392399nat, 3018937801257910216515047324755150230061739800647458677846584795504153630758int, 10nat, 9765625int);
    assert(pow(5, 9953620461528441966150424261858131598523125103572981217302278394nat) % m == 12432341267527756745256562101780752298590697240126755332407548816141571972251int);
    lemma_pow_window(9953620461528441966150424261858131598523125103572981217302278394nat, 12432341267527756745256562101780752298590697240126755332407548816141571972251int, 12nat, 244140625int);
    assert(pow(5, 159257927384455071458406788189730105576370001657167699476836454316nat) % m == 789170716349317388151285254225649761838141032716085490053900106686664126803int);
    lemma_pow_window(159257927384455071458406788189730105576370001657167699476836454316nat, 789170716349317388151285254225649761838141032716085490053900106686664126803int, 9nat, 1953125int);
    assert(pow(5, 2548126838151281143334508611035681689221920026514683191629383269065nat) % m == 610310806950017018757722104526767371315807778323775703978940537639595320464int);
    lemma_pow_window(2548126838151281143334508611035681689221920026514683191629383269065nat, 610310806950017018757722104526767371315807778323775703978940537639595320464int, 15nat, 30517578125int);
    assert(pow(5, 40770029410420498293352137776570907027550720424234931066070132305055nat) % m == 8555721953629461299286736829542406442931665950900867472601658309925438163304int);
    lemma_pow_window(40770029410420498293352137776570907027550720424234931066070132305055nat, 8555721953629461299286736829542406442931665950900867472601658309925438163304int, 8nat, 390625int);
    assert(pow(5, 652320470566727972693634204425134512440811526787758897057122116880888nat) % m == 19200870435978225707111062059747084165650991997241425080699860725083300967194int);
    lemma_pow_window(652320470566727972693634204425134512440811526787758897057122116880888nat, 19200870435978225707111062059747084165650991997241425080699860725083300967194int, 0nat, 1int);
    assert(pow(5, 10437127529067647563098147270802152199052984428604142352913953870094208nat) % m == 13536764371732269273912573961853310557438878140379554347802702086337840854307int);
    lemma_pow_window(10437127529067647563098147270802152199052984428604142352913953870094208nat, 13536764371732269273912573961853310557438878140379554347802702086337840854307int, 0nat, 1int);
    assert(pow(5, 166994040465082361009570356332834435184847750857666277646623261921507328nat) % m == 12650941915662020058015862023665998998969191525479888727406889100124684769509int);
    lemma_pow_window(166994040465082361009570356332834435184847750857666277646623261921507328nat, 12650941915662020058015862023665998998969191525479888727406889100124684769509int, 0nat, 1int);
    assert(pow(5, 2671904647441317776153125701325350962957564013722660442345972190744117248nat) % m == 197302210312744933010843010704445784068657690384188106020011018676818793232int);
    lemma_pow_window(2671904647441317776153125701325350962957564013722660442345972190744117248nat, 197302210312744933010843010704445784068657690384188106020011018676818793232int, 0nat, 1int);
    assert(pow(5, 42750474359061084418450011221205615407321024219562567077535555051905875968nat) % m == 6837567842312086091520287814181175430087169027974246751610506942214842701774int);
    lemma_pow_window(42750474359061084418450011221205615407321024219562567077535555051905875968nat, 6837567842312086091520287814181175430087169027974246751610506942214842701774int, 0nat, 1int);
    assert(pow(5, 684007589744977350695200179539289846517136387513001073240568880830494015488nat) % m == 4419234939496763621076330863786513495701855246241724391626358375488475697872int);
    lemma_pow_window(684007589744977350695200179539289846517136387513001073240568880830494015488nat, 4419234939496763621076330863786513495701855246241724391626358375488475697872int, 0nat, 1int);
    assert(pow(5, 10944121435919637611123202872628637544274182200208017171849102093287904247808nat) % m == 21888242871839275222246405745257275088548364400416034343698204186575808495616int);
}

} // verus!
